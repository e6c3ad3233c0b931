//! The order in which paths are handed out: lowest start first.
//!
//! Roots are ranked by the height of their vertex, the second coordinate of
//! its position, and by index where heights are equal. Heights are compared
//! through a key that orders single-precision bit patterns the way the
//! numbers themselves are ordered in the total order of IEEE 754: negative
//! numbers below positive ones, and negative zero below positive zero.

use itertools::Itertools;
use vstd::prelude::*;

use crate::dag::VertexDag;
use crate::paths::{lemma_root_list, root_list};
use crate::seen::seen_contains;

verus! {

/// The sign bit of a single-precision number.
pub const SIGN_BIT: u32 = 0x8000_0000;

/// The key of a bit pattern: all bits flipped for a negative number, the
/// sign bit set for any other.
pub open spec fn height_key(bits: u32) -> u32 {
    if bits & SIGN_BIT != 0 {
        !bits
    } else {
        bits | SIGN_BIT
    }
}

/// Computes the key of a bit pattern.
pub fn key_of(bits: u32) -> (key: u32)
    ensures
        key == height_key(bits),
{
    if bits & SIGN_BIT != 0 {
        !bits
    } else {
        bits | SIGN_BIT
    }
}

/// The order of pairs: by first part, then by second.
pub open spec fn pair_le(a: (u32, u32), b: (u32, u32)) -> bool {
    a.0 < b.0 || (a.0 == b.0 && a.1 <= b.1)
}

/// Every pair is at most the pairs behind it.
pub open spec fn ascending(s: Seq<(u32, u32)>) -> bool {
    forall|i: int, j: int| 0 <= i < j < s.len() ==> pair_le(#[trigger] s[i], #[trigger] s[j])
}

/// `Itertools::sorted_unstable` on pairs of integers: the same pairs, each
/// as often as before, in ascending order.
#[verifier::external_body]
pub(crate) fn sort_pairs(items: Vec<(u32, u32)>) -> (out: Vec<(u32, u32)>)
    ensures
        out@.to_multiset() == items@.to_multiset(),
        ascending(out@),
{
    items.into_iter().sorted_unstable().collect()
}

impl VertexDag {
    /// The rank of node `r`: the key of its height, and its index.
    pub open spec fn rank(&self, r: u32) -> (u32, u32) {
        (height_key(self.table()[r as int].position[1]), r)
    }

    /// The recorded roots by rank, lowest first.
    pub fn ranked_roots(&self) -> (out: Vec<u32>)
        requires
            self.wf(),
        ensures
            out@.len() == root_list(self.roots(), self.table().len() as int).len(),
            forall|i: int|
                0 <= i < out@.len() ==> self.roots().contains(#[trigger] out@[i]) && out@[i]
                    < self.table().len(),
            forall|r: u32|
                self.roots().contains(r) && r < self.table().len() ==> exists|i: int|
                    0 <= i < out@.len() && #[trigger] out@[i] == r,
            forall|i: int, j: int|
                0 <= i < j < out@.len() ==> pair_le(
                    self.rank(#[trigger] out@[i]),
                    self.rank(#[trigger] out@[j]),
                ) && out@[i] != out@[j],
    {
        let n = self.vertices.len();
        let ghost listed = root_list(self.roots(), n as int);
        proof {
            lemma_root_list(self.roots(), n as int);
        }
        let mut items: Vec<(u32, u32)> = Vec::new();
        let mut r: usize = 0;
        while r < n
            invariant
                r <= n,
                n == self.table().len(),
                n <= u32::MAX,
                items@.len() == root_list(self.roots(), r as int).len(),
                forall|i: int|
                    0 <= i < items@.len() ==> #[trigger] items@[i] == self.rank(
                        root_list(self.roots(), r as int)[i],
                    ) && root_list(self.roots(), r as int)[i] < r,
            decreases n - r,
        {
            if seen_contains(&self.components, r as u32) {
                let height: u32 = self.vertices[r].position[1];
                items.push((key_of(height), r as u32));
            }
            r += 1;
        }
        let ghost given = items@;
        let sorted = sort_pairs(items);
        proof {
            vstd::seq_lib::to_multiset_len(given);
            vstd::seq_lib::to_multiset_len(sorted@);
            assert(given.no_duplicates()) by {
                assert forall|i: int, j: int|
                    0 <= i < given.len() && 0 <= j < given.len() && i != j implies given[i]
                    != given[j] by {
                    assert(given[i].1 == listed[i] && given[j].1 == listed[j]);
                }
            }
            given.lemma_multiset_has_no_duplicates();
            sorted@.lemma_multiset_has_no_duplicates_conv();
            assert forall|i: int| 0 <= i < sorted@.len() implies exists|j: int|
                0 <= j < given.len() && given[j] == #[trigger] sorted@[i] by {
                vstd::seq_lib::to_multiset_contains(sorted@, sorted@[i]);
                vstd::seq_lib::to_multiset_contains(given, sorted@[i]);
                assert(sorted@.contains(sorted@[i]));
            }
            assert forall|j: int| 0 <= j < given.len() implies exists|i: int|
                0 <= i < sorted@.len() && sorted@[i] == #[trigger] given[j] by {
                vstd::seq_lib::to_multiset_contains(sorted@, given[j]);
                vstd::seq_lib::to_multiset_contains(given, given[j]);
                assert(given.contains(given[j]));
            }
        }
        let mut out: Vec<u32> = Vec::new();
        let mut i: usize = 0;
        while i < sorted.len()
            invariant
                i <= sorted@.len(),
                out@.len() == i,
                forall|t: int| 0 <= t < i ==> #[trigger] out@[t] == sorted@[t].1,
            decreases sorted@.len() - i,
        {
            out.push(sorted[i].1);
            i += 1;
        }
        proof {
            assert forall|t: int| 0 <= t < out@.len() implies self.roots().contains(
                #[trigger] out@[t],
            ) && out@[t] < n && sorted@[t] == self.rank(out@[t]) by {
                let j = choose|j: int| 0 <= j < given.len() && given[j] == sorted@[t];
                assert(given[j] == self.rank(listed[j]));
            }
            assert forall|root: u32| self.roots().contains(root) && root < n implies exists|
                t: int,
            |
                0 <= t < out@.len() && #[trigger] out@[t] == root by {
                let j = choose|j: int| 0 <= j < listed.len() && #[trigger] listed[j] == root;
                let t = choose|t: int| 0 <= t < sorted@.len() && sorted@[t] == given[j];
                assert(out@[t] == root);
            }
            assert forall|a: int, b: int| 0 <= a < b < out@.len() implies pair_le(
                self.rank(#[trigger] out@[a]),
                self.rank(#[trigger] out@[b]),
            ) && out@[a] != out@[b] by {
                assert(pair_le(sorted@[a], sorted@[b]));
                assert(sorted@[a] != sorted@[b]);
            }
        }
        out
    }
}

} // verus!
