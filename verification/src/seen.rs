//! Sets of node indices, hashed with the Fx hasher.
//!
//! `rustc_hash::FxHashSet` is the standard hash set with a fixed, unseeded
//! hasher. The verifier's model of the standard set is only unlocked for
//! hashers it knows, so the three operations used by this library are given
//! their contracts here, on trust.

use rustc_hash::{FxHashSet, FxHasher};
use std::hash::BuildHasherDefault;
use vstd::prelude::*;

verus! {

/// `rustc_hash::FxHasher`, opaque to the verifier.
#[verifier::external_type_specification]
#[verifier::external_body]
pub struct ExFxHasher(FxHasher);

/// `std::hash::BuildHasherDefault`, opaque to the verifier.
#[verifier::external_type_specification]
#[verifier::external_body]
#[verifier::reject_recursive_types(H)]
pub struct ExBuildHasherDefault<H>(BuildHasherDefault<H>);

/// `FxHashSet::default`: the empty set.
#[verifier::external_body]
pub(crate) fn seen_new() -> (s: FxHashSet<u32>)
    ensures
        s@ == Set::<u32>::empty(),
{
    FxHashSet::default()
}

/// `HashSet::insert`: adds `x`; the result tells whether `x` was new.
#[verifier::external_body]
pub(crate) fn seen_insert(s: &mut FxHashSet<u32>, x: u32) -> (fresh: bool)
    ensures
        final(s)@ == old(s)@.insert(x),
        fresh == !old(s)@.contains(x),
{
    s.insert(x)
}

/// `HashSet::contains`: membership.
#[verifier::external_body]
pub(crate) fn seen_contains(s: &FxHashSet<u32>, x: u32) -> (found: bool)
    ensures
        found == s@.contains(x),
{
    s.contains(&x)
}

} // verus!
