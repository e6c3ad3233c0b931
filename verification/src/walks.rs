//! Walks over arc lists: the mathematical vocabulary of the graph contracts.
//!
//! An arc list is a sequence of `(source, target, weight)` triples in
//! insertion order. Nothing here is executable.

use vstd::prelude::*;
use vstd::set_lib::{lemma_int_range, lemma_len_subset, set_int_range};

verus! {

/// An arc list.
pub type Arcs = Seq<(int, int, int)>;

/// Some arc leads from `a` to `b`.
pub open spec fn has_arc(arcs: Arcs, a: int, b: int) -> bool {
    exists|i: int| 0 <= i < arcs.len() && (#[trigger] arcs[i]).0 == a && arcs[i].1 == b
}

/// `p` is a non-empty node sequence whose consecutive nodes are joined by arcs.
pub open spec fn is_walk(arcs: Arcs, p: Seq<int>) -> bool {
    &&& p.len() >= 1
    &&& forall|i: int| #![trigger p[i]] 0 <= i < p.len() - 1 ==> has_arc(arcs, p[i], p[i + 1])
}

/// `p` is a walk that starts at `a` and ends at `b`.
pub open spec fn joins(arcs: Arcs, p: Seq<int>, a: int, b: int) -> bool {
    is_walk(arcs, p) && p[0] == a && p[p.len() - 1] == b
}

/// Some walk leads from `a` to `b`. Every node reaches itself.
pub open spec fn reachable(arcs: Arcs, a: int, b: int) -> bool {
    exists|p: Seq<int>| #[trigger] joins(arcs, p, a, b)
}

/// Some walk of exactly `hops` arcs leads from `a` to `b`.
pub open spec fn has_walk_of(arcs: Arcs, a: int, b: int, hops: nat) -> bool {
    exists|p: Seq<int>| #[trigger] joins(arcs, p, a, b) && p.len() == hops + 1
}

/// `hops` is the least number of arcs on any walk from `a` to `b`.
pub open spec fn is_least_hops(arcs: Arcs, a: int, b: int, hops: nat) -> bool {
    &&& has_walk_of(arcs, a, b, hops)
    &&& forall|fewer: nat| fewer < hops ==> !#[trigger] has_walk_of(arcs, a, b, fewer)
}

/// The least number of arcs from `a` to `b`, if `b` can be reached at all.
pub open spec fn hop_distance(arcs: Arcs, a: int, b: int) -> Option<nat> {
    if reachable(arcs, a, b) {
        Some(choose|hops: nat| is_least_hops(arcs, a, b, hops))
    } else {
        None
    }
}

/// No walk of one or more arcs returns to where it started.
#[verifier::opaque]
pub open spec fn acyclic(arcs: Arcs) -> bool {
    forall|p: Seq<int>| #[trigger] is_walk(arcs, p) && p.len() >= 2 ==> p[0] != p[p.len() - 1]
}

/// The position of the most recently added arc from `a` to `b`.
pub open spec fn last_arc_index(arcs: Arcs, a: int, b: int) -> Option<int>
    decreases arcs.len(),
{
    if arcs.len() == 0 {
        None
    } else if arcs.last().0 == a && arcs.last().1 == b {
        Some(arcs.len() - 1)
    } else {
        last_arc_index(arcs.drop_last(), a, b)
    }
}

/// The targets of the arcs that leave `a`, most recently added arc first.
pub open spec fn out_neighbors(arcs: Arcs, a: int) -> Seq<int>
    decreases arcs.len(),
{
    if arcs.len() == 0 {
        Seq::empty()
    } else if arcs.last().0 == a {
        seq![arcs.last().1] + out_neighbors(arcs.drop_last(), a)
    } else {
        out_neighbors(arcs.drop_last(), a)
    }
}

/// Every arc joins two nodes below `n`.
pub open spec fn arcs_within(arcs: Arcs, n: int) -> bool {
    forall|i: int|
        0 <= i < arcs.len() ==> 0 <= (#[trigger] arcs[i]).0 < n && 0 <= arcs[i].1 < n
}

/// Every arc carries the weight `w`.
pub open spec fn uniform_weight(arcs: Arcs, w: int) -> bool {
    forall|i: int| 0 <= i < arcs.len() ==> (#[trigger] arcs[i]).2 == w
}

/// Some arc leaves `a`.
pub open spec fn has_out_arc(arcs: Arcs, a: int) -> bool {
    exists|i: int| 0 <= i < arcs.len() && (#[trigger] arcs[i]).0 == a
}

/// Some arc enters `a`.
pub open spec fn has_in_arc(arcs: Arcs, a: int) -> bool {
    exists|i: int| 0 <= i < arcs.len() && (#[trigger] arcs[i]).1 == a
}

/// Some arc leaves or enters `a`.
pub open spec fn touched(arcs: Arcs, a: int) -> bool {
    has_out_arc(arcs, a) || has_in_arc(arcs, a)
}

/// Appending an arc adds exactly that connection.
pub proof fn lemma_has_arc_push(arcs: Arcs, e: (int, int, int), a: int, b: int)
    ensures
        has_arc(arcs.push(e), a, b) <==> (has_arc(arcs, a, b) || (e.0 == a && e.1 == b)),
{
    let grown = arcs.push(e);
    if has_arc(arcs, a, b) {
        let i = choose|i: int| 0 <= i < arcs.len() && (#[trigger] arcs[i]).0 == a && arcs[i].1 == b;
        assert(grown[i] == arcs[i]);
    }
    if e.0 == a && e.1 == b {
        assert(grown[arcs.len() as int] == e);
    }
    if has_arc(grown, a, b) {
        let i = choose|i: int|
            0 <= i < grown.len() && (#[trigger] grown[i]).0 == a && grown[i].1 == b;
        if i < arcs.len() {
            assert(arcs[i] == grown[i]);
        }
    }
}

/// A walk stays a walk in any arc list that has at least the same connections.
pub proof fn lemma_walk_mono(arcs: Arcs, more: Arcs, p: Seq<int>)
    requires
        is_walk(arcs, p),
        forall|a: int, b: int| has_arc(arcs, a, b) ==> has_arc(more, a, b),
    ensures
        is_walk(more, p),
{
    assert forall|i: int| #![trigger p[i]] 0 <= i < p.len() - 1 implies has_arc(
        more,
        p[i],
        p[i + 1],
    ) by {
        assert(has_arc(arcs, p[i], p[i + 1]));
    }
}

/// Reachability survives the addition of an arc.
pub proof fn lemma_reach_push(arcs: Arcs, e: (int, int, int), a: int, b: int)
    requires
        reachable(arcs, a, b),
    ensures
        reachable(arcs.push(e), a, b),
{
    let p = choose|p: Seq<int>| #[trigger] joins(arcs, p, a, b);
    assert forall|x: int, y: int| has_arc(arcs, x, y) implies has_arc(arcs.push(e), x, y) by {
        lemma_has_arc_push(arcs, e, x, y);
    }
    lemma_walk_mono(arcs, arcs.push(e), p);
    assert(joins(arcs.push(e), p, a, b));
}

/// Every node reaches itself.
pub proof fn lemma_reach_self(arcs: Arcs, a: int)
    ensures
        reachable(arcs, a, a),
        has_walk_of(arcs, a, a, 0),
{
    let p = seq![a];
    assert(joins(arcs, p, a, a));
}

/// A walk extended by one arc is a walk.
pub proof fn lemma_walk_push(arcs: Arcs, p: Seq<int>, b: int)
    requires
        is_walk(arcs, p),
        has_arc(arcs, p[p.len() - 1], b),
    ensures
        is_walk(arcs, p.push(b)),
{
    let q = p.push(b);
    assert forall|i: int| #![trigger q[i]] 0 <= i < q.len() - 1 implies has_arc(
        arcs,
        q[i],
        q[i + 1],
    ) by {
        if i < p.len() - 1 {
            assert(q[i] == p[i] && q[i + 1] == p[i + 1]);
        } else {
            assert(q[i] == p[p.len() - 1] && q[i + 1] == b);
        }
    }
}

/// Reaching `b` and then following an arc to `c` reaches `c`.
pub proof fn lemma_reach_step(arcs: Arcs, a: int, b: int, c: int)
    requires
        reachable(arcs, a, b),
        has_arc(arcs, b, c),
    ensures
        reachable(arcs, a, c),
{
    let p = choose|p: Seq<int>| #[trigger] joins(arcs, p, a, b);
    lemma_walk_push(arcs, p, c);
    assert(joins(arcs, p.push(c), a, c));
}

/// Two walks that meet end to start form one walk.
pub proof fn lemma_walk_concat(arcs: Arcs, p: Seq<int>, q: Seq<int>)
    requires
        is_walk(arcs, p),
        is_walk(arcs, q),
        p[p.len() - 1] == q[0],
    ensures
        is_walk(arcs, p + q.subrange(1, q.len() as int)),
        (p + q.subrange(1, q.len() as int))[0] == p[0],
        (p + q.subrange(1, q.len() as int)).last() == q[q.len() - 1],
{
    let r = p + q.subrange(1, q.len() as int);
    assert forall|i: int| #![trigger r[i]] 0 <= i < r.len() - 1 implies has_arc(
        arcs,
        r[i],
        r[i + 1],
    ) by {
        if i < p.len() - 1 {
            assert(r[i] == p[i] && r[i + 1] == p[i + 1]);
        } else {
            let k = i - (p.len() - 1);
            assert(r[i] == q[k]);
            assert(r[i + 1] == q[k + 1]);
        }
    }
}

/// Reachability is transitive.
pub proof fn lemma_reach_trans(arcs: Arcs, a: int, b: int, c: int)
    requires
        reachable(arcs, a, b),
        reachable(arcs, b, c),
    ensures
        reachable(arcs, a, c),
{
    let p = choose|p: Seq<int>| #[trigger] joins(arcs, p, a, b);
    let q = choose|q: Seq<int>| #[trigger] joins(arcs, q, b, c);
    lemma_walk_concat(arcs, p, q);
    assert(joins(arcs, p + q.subrange(1, q.len() as int), a, c));
}

/// Any stretch of a walk is a walk.
pub proof fn lemma_walk_stretch(arcs: Arcs, p: Seq<int>, from: int, to: int)
    requires
        is_walk(arcs, p),
        0 <= from < to <= p.len(),
    ensures
        is_walk(arcs, p.subrange(from, to)),
{
    let s = p.subrange(from, to);
    assert forall|i: int| #![trigger s[i]] 0 <= i < s.len() - 1 implies has_arc(
        arcs,
        s[i],
        s[i + 1],
    ) by {
        assert(s[i] == p[from + i] && s[i + 1] == p[from + i + 1]);
    }
}

/// A walk in the list grown by `u -> v` either avoids the new arc, or it
/// reaches `u` first and leaves from `v` last over old arcs only.
proof fn lemma_new_walk_splits(arcs: Arcs, u: int, v: int, w: int, p: Seq<int>)
    requires
        is_walk(arcs.push((u, v, w)), p),
    ensures
        is_walk(arcs, p) || (reachable(arcs, p[0], u) && reachable(arcs, v, p[p.len() - 1])),
    decreases p.len(),
{
    let grown = arcs.push((u, v, w));
    if p.len() == 1 {
        assert(is_walk(arcs, p));
    } else {
        let q = p.drop_last();
        let a = q[q.len() - 1];
        let b = p[p.len() - 1];
        lemma_walk_stretch(grown, p, 0, p.len() - 1);
        lemma_new_walk_splits(arcs, u, v, w, q);
        assert(a == p[p.len() - 2]);
        assert(has_arc(grown, p[p.len() - 2], p[p.len() - 2 + 1]));
        lemma_has_arc_push(arcs, (u, v, w), a, b);
        lemma_reach_self(arcs, v);
        if is_walk(arcs, q) {
            if has_arc(arcs, a, b) {
                lemma_walk_push(arcs, q, b);
                assert(q.push(b) =~= p);
            } else {
                assert(joins(arcs, q, p[0], u));
            }
        } else {
            if has_arc(arcs, a, b) {
                lemma_reach_step(arcs, v, a, b);
            }
        }
    }
}

/// Adding `u -> v` to an acyclic arc list keeps it acyclic, provided `v`
/// did not already reach `u`.
pub proof fn lemma_acyclic_push(arcs: Arcs, u: int, v: int, w: int)
    requires
        acyclic(arcs),
        !reachable(arcs, v, u),
    ensures
        acyclic(arcs.push((u, v, w))),
{
    reveal(acyclic);
    let grown = arcs.push((u, v, w));
    assert forall|p: Seq<int>| #[trigger] is_walk(grown, p) && p.len() >= 2 implies p[0] != p[p.len()
        - 1] by {
        lemma_new_walk_splits(arcs, u, v, w, p);
        if !is_walk(arcs, p) && p[0] == p[p.len() - 1] {
            lemma_reach_trans(arcs, v, p[0], u);
        }
    }
}

/// A walk that starts below `n` stays below `n`.
pub proof fn lemma_walk_within(arcs: Arcs, n: int, p: Seq<int>)
    requires
        arcs_within(arcs, n),
        is_walk(arcs, p),
        0 <= p[0] < n,
    ensures
        forall|i: int| 0 <= i < p.len() ==> 0 <= #[trigger] p[i] < n,
{
    assert forall|i: int| 0 <= i < p.len() implies 0 <= #[trigger] p[i] < n by {
        if i > 0 {
            assert(has_arc(arcs, p[i - 1], p[i - 1 + 1]));
        }
    }
}

/// In an acyclic arc list no walk visits a node twice.
pub proof fn lemma_walk_distinct(arcs: Arcs, p: Seq<int>)
    requires
        acyclic(arcs),
        is_walk(arcs, p),
    ensures
        p.no_duplicates(),
{
    reveal(acyclic);
    assert forall|i: int, j: int| 0 <= i < p.len() && 0 <= j < p.len() && i != j implies p[i]
        != p[j] by {
        let (lo, hi) = if i < j { (i, j) } else { (j, i) };
        let loop_walk = p.subrange(lo, hi + 1);
        lemma_walk_stretch(arcs, p, lo, hi + 1);
        assert(loop_walk[0] == p[lo]);
        assert(loop_walk[loop_walk.len() - 1] == p[hi]);
    }
}

/// In an acyclic arc list over `n` nodes a walk has at most `n` nodes.
pub proof fn lemma_walk_bounded(arcs: Arcs, n: int, p: Seq<int>)
    requires
        acyclic(arcs),
        arcs_within(arcs, n),
        is_walk(arcs, p),
        0 <= p[0] < n,
    ensures
        p.len() <= n,
{
    lemma_walk_within(arcs, n, p);
    lemma_walk_distinct(arcs, p);
    p.unique_seq_to_set();
    lemma_int_range(0, n);
    assert(p.to_set().subset_of(set_int_range(0, n))) by {
        assert forall|x: int| p.to_set().contains(x) implies set_int_range(0, n).contains(x) by {
            let i = choose|i: int| 0 <= i < p.len() && p[i] == x;
            assert(0 <= p[i] < n);
        }
    }
    lemma_len_subset(p.to_set(), set_int_range(0, n));
}

/// Appending an arc adds one exit, at its source.
pub proof fn lemma_out_arc_push(arcs: Arcs, e: (int, int, int), a: int)
    ensures
        has_out_arc(arcs.push(e), a) <==> (has_out_arc(arcs, a) || e.0 == a),
{
    let grown = arcs.push(e);
    if has_out_arc(arcs, a) {
        let i = choose|i: int| 0 <= i < arcs.len() && (#[trigger] arcs[i]).0 == a;
        assert(grown[i] == arcs[i]);
    }
    if e.0 == a {
        assert(grown[arcs.len() as int] == e);
    }
    if has_out_arc(grown, a) {
        let i = choose|i: int| 0 <= i < grown.len() && (#[trigger] grown[i]).0 == a;
        if i < arcs.len() {
            assert(arcs[i] == grown[i]);
        }
    }
}

/// Appending an arc adds one entry, at its target.
pub proof fn lemma_in_arc_push(arcs: Arcs, e: (int, int, int), a: int)
    ensures
        has_in_arc(arcs.push(e), a) <==> (has_in_arc(arcs, a) || e.1 == a),
{
    let grown = arcs.push(e);
    if has_in_arc(arcs, a) {
        let i = choose|i: int| 0 <= i < arcs.len() && (#[trigger] arcs[i]).1 == a;
        assert(grown[i] == arcs[i]);
    }
    if e.1 == a {
        assert(grown[arcs.len() as int] == e);
    }
    if has_in_arc(grown, a) {
        let i = choose|i: int| 0 <= i < grown.len() && (#[trigger] grown[i]).1 == a;
        if i < arcs.len() {
            assert(arcs[i] == grown[i]);
        }
    }
}

/// Following an arc from `a` to `b` and then reaching `c` reaches `c`.
pub proof fn lemma_reach_prepend(arcs: Arcs, a: int, b: int, c: int)
    requires
        has_arc(arcs, a, b),
        reachable(arcs, b, c),
    ensures
        reachable(arcs, a, c),
{
    lemma_reach_self(arcs, a);
    lemma_reach_step(arcs, a, a, b);
    lemma_reach_trans(arcs, a, b, c);
}

/// A node without exit reaches only itself.
pub proof fn lemma_dead_end(arcs: Arcs, a: int, v: int)
    requires
        !has_out_arc(arcs, a),
        reachable(arcs, a, v),
    ensures
        v == a,
{
    let p = choose|p: Seq<int>| #[trigger] joins(arcs, p, a, v);
    if p.len() >= 2 {
        assert(has_arc(arcs, p[0int], p[0int + 1]));
        let i = choose|i: int|
            0 <= i < arcs.len() && (#[trigger] arcs[i]).0 == p[0] && arcs[i].1 == p[1];
        assert(arcs[i].0 == a);
    }
}

/// Every listed neighbour is the target of an arc from `a`.
pub proof fn lemma_out_neighbors(arcs: Arcs, a: int, k: int)
    requires
        0 <= k < out_neighbors(arcs, a).len(),
    ensures
        has_arc(arcs, a, out_neighbors(arcs, a)[k]),
    decreases arcs.len(),
{
    let shorter = arcs.drop_last();
    if arcs.last().0 == a && k == 0 {
        assert(arcs[arcs.len() - 1] == arcs.last());
    } else {
        let j = if arcs.last().0 == a {
            k - 1
        } else {
            k
        };
        lemma_out_neighbors(shorter, a, j);
        let b = out_neighbors(shorter, a)[j];
        let i = choose|i: int|
            0 <= i < shorter.len() && (#[trigger] shorter[i]).0 == a && shorter[i].1 == b;
        assert(arcs[i] == shorter[i]);
    }
}

/// An arc is a connection between its ends.
pub proof fn lemma_arc_connects(arcs: Arcs, i: int)
    requires
        0 <= i < arcs.len(),
    ensures
        has_arc(arcs, arcs[i].0, arcs[i].1),
        has_out_arc(arcs, arcs[i].0),
        has_in_arc(arcs, arcs[i].1),
{
}

} // verus!
