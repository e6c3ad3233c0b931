//! Longest walks from a root.
//!
//! Every arc of the skeleton weighs minus one, so the shortest distances that
//! the Bellman-Ford relaxation finds are the negated lengths of the longest
//! walks. The walk itself is read off the recorded predecessors, from the
//! deepest node back to the root.

use vstd::prelude::*;

use crate::dag::DAG_WEIGHT;
use crate::walks::{
    acyclic, arcs_within, has_arc, has_walk_of, is_walk, joins, lemma_reach_self,
    lemma_walk_bounded, lemma_walk_push, lemma_walk_stretch, lemma_walk_within, reachable,
    uniform_weight, Arcs,
};

verus! {

/// An edge list read as an arc list.
pub open spec fn as_arcs(edges: Seq<(u32, u32, i64)>) -> Arcs {
    Seq::new(edges.len(), |i: int| (edges[i].0 as int, edges[i].1 as int, edges[i].2 as int))
}

/// The longest walk from `root` to `v` has `depth` arcs.
pub open spec fn has_depth(arcs: Arcs, root: int, v: int, depth: nat) -> bool {
    &&& has_walk_of(arcs, root, v, depth)
    &&& forall|hops: nat| #[trigger] has_walk_of(arcs, root, v, hops) ==> hops <= depth
}

/// What the relaxation yields: which nodes the root reaches, the negated
/// depth of each, and for each but the root the node before it on a longest
/// walk.
pub struct Depths {
    pub reached: Vec<bool>,
    pub dist: Vec<i64>,
    pub pred: Vec<u32>,
}

/// Every distance found so far is the negated length of a real walk.
#[verifier::opaque]
pub open spec fn sound(arcs: Arcs, root: int, n: int, reached: Seq<bool>, dist: Seq<i64>) -> bool {
    forall|v: int|
        0 <= v < n && #[trigger] reached[v] ==> dist[v] <= 0 && has_walk_of(
            arcs,
            root,
            v,
            (-dist[v]) as nat,
        )
}

/// Every walk of at most `k` arcs from the root is accounted for.
#[verifier::opaque]
pub open spec fn complete(
    arcs: Arcs,
    root: int,
    n: int,
    reached: Seq<bool>,
    dist: Seq<i64>,
    k: int,
) -> bool {
    forall|p: Seq<int>| #[trigger]
        is_walk(arcs, p) && p[0] == root && p.len() - 1 <= k ==> 0 <= p[p.len() - 1] < n
            && reached[p[p.len() - 1]] && dist[p[p.len() - 1]] <= -(p.len() - 1)
}

/// Every reached node but the root has a reached predecessor one arc
/// before it, whose distance is at most one more.
#[verifier::opaque]
pub open spec fn pred_ok(
    arcs: Arcs,
    root: int,
    n: int,
    reached: Seq<bool>,
    dist: Seq<i64>,
    pred: Seq<u32>,
) -> bool {
    forall|v: int|
        0 <= v < n && #[trigger] reached[v] && v != root ==> pred[v] < n && has_arc(
            arcs,
            pred[v] as int,
            v,
        ) && reached[pred[v] as int] && dist[v] >= dist[pred[v] as int] - 1
}

/// Since the round began no node was lost and no distance grew.
#[verifier::opaque]
pub open spec fn mono(
    n: int,
    reached0: Seq<bool>,
    dist0: Seq<i64>,
    reached: Seq<bool>,
    dist: Seq<i64>,
) -> bool {
    forall|v: int|
        0 <= v < n && #[trigger] reached0[v] ==> reached[v] && dist[v] <= dist0[v]
}

/// The first `j` arcs were relaxed against the distances the round began with.
#[verifier::opaque]
pub open spec fn relaxed(
    arcs: Arcs,
    reached0: Seq<bool>,
    dist0: Seq<i64>,
    reached: Seq<bool>,
    dist: Seq<i64>,
    j: int,
) -> bool {
    forall|i: int|
        0 <= i < j && reached0[(#[trigger] arcs[i]).0] ==> reached[arcs[i].1] && dist[arcs[i].1]
            <= dist0[arcs[i].0] - 1
}

/// The shape that the three tables keep throughout.
pub open spec fn tables(n: int, root: int, reached: Seq<bool>, dist: Seq<i64>, pred: Seq<u32>)
    -> bool {
    &&& 0 <= root < n
    &&& reached.len() == n
    &&& dist.len() == n
    &&& pred.len() == n
    &&& reached[root]
    &&& dist[root] == 0
}

/// A sound distance is never below `1 - n`.
proof fn lemma_sound_bound(arcs: Arcs, root: int, n: int, reached: Seq<bool>, dist: Seq<i64>, v: int)
    requires
        acyclic(arcs),
        arcs_within(arcs, n),
        sound(arcs, root, n, reached, dist),
        0 <= root < n,
        0 <= v < n,
        reached[v],
    ensures
        -n < dist[v] <= 0,
        has_walk_of(arcs, root, v, (-dist[v]) as nat),
{
    reveal(sound);
    let p = choose|p: Seq<int>| #[trigger] joins(arcs, p, root, v) && p.len() == (-dist[v]) + 1;
    lemma_walk_bounded(arcs, n, p);
}

/// Relaxing arc `j` keeps what the round has established.
proof fn lemma_relax(
    arcs: Arcs,
    root: int,
    n: int,
    reached0: Seq<bool>,
    dist0: Seq<i64>,
    reached: Seq<bool>,
    dist: Seq<i64>,
    pred: Seq<u32>,
    j: int,
)
    requires
        acyclic(arcs),
        arcs_within(arcs, n),
        uniform_weight(arcs, DAG_WEIGHT as int),
        n <= u32::MAX,
        0 <= j < arcs.len(),
        tables(n, root, reached, dist, pred),
        reached0.len() == n,
        dist0.len() == n,
        sound(arcs, root, n, reached, dist),
        pred_ok(arcs, root, n, reached, dist, pred),
        mono(n, reached0, dist0, reached, dist),
        relaxed(arcs, reached0, dist0, reached, dist, j),
        reached[arcs[j].0],
    ensures
        arcs[j].1 != root,
        arcs[j].1 != arcs[j].0,
        -n < dist[arcs[j].0] <= 0,
        ({
            let a = arcs[j].0;
            let b = arcs[j].1;
            let better = !reached[b] || dist[a] - 1 < dist[b];
            let reached2 = if better {
                reached.update(b, true)
            } else {
                reached
            };
            let dist2 = if better {
                dist.update(b, (dist[a] - 1) as i64)
            } else {
                dist
            };
            let pred2 = if better {
                pred.update(b, a as u32)
            } else {
                pred
            };
            &&& tables(n, root, reached2, dist2, pred2)
            &&& sound(arcs, root, n, reached2, dist2)
            &&& pred_ok(arcs, root, n, reached2, dist2, pred2)
            &&& mono(n, reached0, dist0, reached2, dist2)
            &&& relaxed(arcs, reached0, dist0, reached2, dist2, j + 1)
        }),
{
    let a = arcs[j].0;
    let b = arcs[j].1;
    lemma_sound_bound(arcs, root, n, reached, dist, a);
    let p = choose|p: Seq<int>| #[trigger] joins(arcs, p, root, a) && p.len() == (-dist[a]) + 1;
    crate::walks::lemma_arc_connects(arcs, j);
    lemma_walk_push(arcs, p, b);
    let q = p.push(b);
    assert(joins(arcs, q, root, b) && q.len() == (-dist[a]) + 2);
    assert(b != root && b != a) by {
        reveal(acyclic);
        if b == a {
            let two = seq![a, b];
            assert(is_walk(arcs, two));
            assert(two[0] == two[two.len() - 1]);
        }
    }
    let better = !reached[b] || dist[a] - 1 < dist[b];
    if better {
        let reached2 = reached.update(b, true);
        let dist2 = dist.update(b, (dist[a] - 1) as i64);
        let pred2 = pred.update(b, a as u32);
        assert(sound(arcs, root, n, reached2, dist2)) by {
            reveal(sound);
            assert(has_walk_of(arcs, root, b, (-(dist[a] - 1)) as nat));
        }
        assert(pred_ok(arcs, root, n, reached2, dist2, pred2)) by {
            reveal(pred_ok);
            assert forall|v: int| 0 <= v < n && #[trigger] reached2[v] && v != root implies pred2[v]
                < n && has_arc(arcs, pred2[v] as int, v) && reached2[pred2[v] as int] && dist2[v]
                >= dist2[pred2[v] as int] - 1 by {
                if v != b {
                    assert(reached[v]);
                }
            }
        }
        assert(mono(n, reached0, dist0, reached2, dist2)) by {
            reveal(mono);
        }
        assert(relaxed(arcs, reached0, dist0, reached2, dist2, j + 1)) by {
            reveal(relaxed);
            reveal(mono);
        }
    } else {
        assert(relaxed(arcs, reached0, dist0, reached, dist, j + 1)) by {
            reveal(relaxed);
            reveal(mono);
        }
    }
}

/// An arc whose source is not reached leaves everything as it is.
proof fn lemma_skip(
    arcs: Arcs,
    n: int,
    reached0: Seq<bool>,
    dist0: Seq<i64>,
    reached: Seq<bool>,
    dist: Seq<i64>,
    j: int,
)
    requires
        arcs_within(arcs, n),
        0 <= j < arcs.len(),
        mono(n, reached0, dist0, reached, dist),
        relaxed(arcs, reached0, dist0, reached, dist, j),
        !reached[arcs[j].0],
    ensures
        relaxed(arcs, reached0, dist0, reached, dist, j + 1),
{
    reveal(relaxed);
    reveal(mono);
}

/// A full round accounts for walks one arc longer.
proof fn lemma_round(
    arcs: Arcs,
    root: int,
    n: int,
    reached0: Seq<bool>,
    dist0: Seq<i64>,
    reached: Seq<bool>,
    dist: Seq<i64>,
    k: int,
)
    requires
        arcs_within(arcs, n),
        0 <= root < n,
        0 <= k,
        complete(arcs, root, n, reached0, dist0, k),
        mono(n, reached0, dist0, reached, dist),
        relaxed(arcs, reached0, dist0, reached, dist, arcs.len() as int),
    ensures
        complete(arcs, root, n, reached, dist, k + 1),
{
    reveal(complete);
    reveal(mono);
    reveal(relaxed);
    assert forall|p: Seq<int>| #[trigger]
        is_walk(arcs, p) && p[0] == root && p.len() - 1 <= k + 1 implies 0 <= p[p.len() - 1] < n
        && reached[p[p.len() - 1]] && dist[p[p.len() - 1]] <= -(p.len() - 1) by {
        lemma_walk_within(arcs, n, p);
        if p.len() - 1 <= k {
            assert(reached0[p[p.len() - 1]]);
        } else {
            let q = p.subrange(0, p.len() - 1);
            lemma_walk_stretch(arcs, p, 0, p.len() - 1);
            assert(q[0] == root);
            let a = q[q.len() - 1];
            let b = p[p.len() - 1];
            assert(a == p[p.len() - 2]);
            assert(has_arc(arcs, p[p.len() - 2], p[p.len() - 2 + 1]));
            let i = choose|i: int|
                0 <= i < arcs.len() && (#[trigger] arcs[i]).0 == a && arcs[i].1 == b;
            assert(reached0[a] && dist0[a] <= -k);
            assert(reached0[arcs[i].0]);
        }
    }
}

/// Once every walk is accounted for, the tables say exactly what the root
/// reaches and how deep each node lies.
proof fn lemma_depths(
    arcs: Arcs,
    root: int,
    n: int,
    reached: Seq<bool>,
    dist: Seq<i64>,
    pred: Seq<u32>,
    v: int,
)
    requires
        acyclic(arcs),
        arcs_within(arcs, n),
        tables(n, root, reached, dist, pred),
        sound(arcs, root, n, reached, dist),
        pred_ok(arcs, root, n, reached, dist, pred),
        complete(arcs, root, n, reached, dist, n - 1),
        0 <= v < n,
    ensures
        reached[v] <==> reachable(arcs, root, v),
        reached[v] ==> dist[v] <= 0 && has_depth(arcs, root, v, (-dist[v]) as nat),
        reached[v] && v != root ==> pred[v] < n && has_arc(arcs, pred[v] as int, v)
            && reached[pred[v] as int] && dist[pred[v] as int] == dist[v] + 1,
{
    reveal(complete);
    if reachable(arcs, root, v) {
        let p = choose|p: Seq<int>| #[trigger] joins(arcs, p, root, v);
        lemma_walk_bounded(arcs, n, p);
        assert(is_walk(arcs, p) && p[0] == root && p.len() - 1 <= n - 1);
    }
    if reached[v] {
        lemma_sound_bound(arcs, root, n, reached, dist, v);
        let w = choose|p: Seq<int>| #[trigger] joins(arcs, p, root, v) && p.len() == (-dist[v]) + 1;
        assert(reachable(arcs, root, v));
        assert forall|hops: nat| #[trigger] has_walk_of(arcs, root, v, hops) implies hops <= (
        -dist[v]) as nat by {
            let p = choose|p: Seq<int>| #[trigger] joins(arcs, p, root, v) && p.len() == hops + 1;
            lemma_walk_bounded(arcs, n, p);
            assert(is_walk(arcs, p) && p[0] == root && p.len() - 1 <= n - 1);
        }
        if v != root {
            reveal(pred_ok);
            let u = pred[v] as int;
            lemma_sound_bound(arcs, root, n, reached, dist, u);
            let p = choose|p: Seq<int>| #[trigger]
                joins(arcs, p, root, u) && p.len() == (-dist[u]) + 1;
            lemma_walk_push(arcs, p, v);
            let q = p.push(v);
            lemma_walk_bounded(arcs, n, q);
            assert(is_walk(arcs, q) && q[0] == root && q.len() - 1 <= n - 1);
            assert(q[q.len() - 1] == v);
        }
    }
}

/// Bellman-Ford from `root` over arcs of weight minus one: `n - 1` rounds,
/// each relaxing every arc in turn.
pub(crate) fn bellman_ford(edges: &Vec<(u32, u32, i64)>, n: usize, root: u32) -> (out: Depths)
    requires
        acyclic(as_arcs(edges@)),
        arcs_within(as_arcs(edges@), n as int),
        uniform_weight(as_arcs(edges@), DAG_WEIGHT as int),
        root < n <= u32::MAX,
    ensures
        tables(n as int, root as int, out.reached@, out.dist@, out.pred@),
        forall|v: int|
            0 <= v < n ==> (#[trigger] out.reached@[v] <==> reachable(
                as_arcs(edges@),
                root as int,
                v,
            )),
        forall|v: int|
            0 <= v < n && #[trigger] out.reached@[v] ==> out.dist@[v] <= 0 && has_depth(
                as_arcs(edges@),
                root as int,
                v,
                (-out.dist@[v]) as nat,
            ),
        forall|v: int|
            0 <= v < n && #[trigger] out.reached@[v] && v != root ==> out.pred@[v] < n && has_arc(
                as_arcs(edges@),
                out.pred@[v] as int,
                v,
            ) && out.reached@[out.pred@[v] as int] && out.dist@[out.pred@[v] as int]
                == out.dist@[v] + 1,
{
    let ghost arcs = as_arcs(edges@);
    let mut reached: Vec<bool> = Vec::new();
    let mut dist: Vec<i64> = Vec::new();
    let mut pred: Vec<u32> = Vec::new();
    let mut i: usize = 0;
    while i < n
        invariant
            i <= n,
            root < n,
            reached@.len() == i,
            dist@.len() == i,
            pred@.len() == i,
            forall|v: int| 0 <= v < i ==> (#[trigger] reached@[v] <==> v == root),
            forall|v: int| 0 <= v < i ==> #[trigger] dist@[v] == 0,
        decreases n - i,
    {
        reached.push(i == root as usize);
        dist.push(0);
        pred.push(root);
        i += 1;
    }
    proof {
        lemma_reach_self(arcs, root as int);
        assert(sound(arcs, root as int, n as int, reached@, dist@)) by {
            reveal(sound);
        }
        assert(pred_ok(arcs, root as int, n as int, reached@, dist@, pred@)) by {
            reveal(pred_ok);
        }
        assert(complete(arcs, root as int, n as int, reached@, dist@, 0)) by {
            reveal(complete);
        }
    }
    let mut k: usize = 0;
    while k + 1 < n
        invariant
            k < n <= u32::MAX,
            root < n,
            arcs == as_arcs(edges@),
            acyclic(arcs),
            arcs_within(arcs, n as int),
            uniform_weight(arcs, DAG_WEIGHT as int),
            tables(n as int, root as int, reached@, dist@, pred@),
            sound(arcs, root as int, n as int, reached@, dist@),
            pred_ok(arcs, root as int, n as int, reached@, dist@, pred@),
            complete(arcs, root as int, n as int, reached@, dist@, k as int),
        decreases n - k,
    {
        let ghost reached0 = reached@;
        let ghost dist0 = dist@;
        proof {
            assert(mono(n as int, reached0, dist0, reached@, dist@)) by {
                reveal(mono);
            }
            assert(relaxed(arcs, reached0, dist0, reached@, dist@, 0)) by {
                reveal(relaxed);
            }
        }
        let mut j: usize = 0;
        while j < edges.len()
            invariant
                j <= edges@.len(),
                n <= u32::MAX,
                root < n,
                arcs == as_arcs(edges@),
                acyclic(arcs),
                arcs_within(arcs, n as int),
                uniform_weight(arcs, DAG_WEIGHT as int),
                reached0.len() == n,
                dist0.len() == n,
                tables(n as int, root as int, reached@, dist@, pred@),
                sound(arcs, root as int, n as int, reached@, dist@),
                pred_ok(arcs, root as int, n as int, reached@, dist@, pred@),
                mono(n as int, reached0, dist0, reached@, dist@),
                relaxed(arcs, reached0, dist0, reached@, dist@, j as int),
            decreases edges@.len() - j,
        {
            let e = edges[j];
            let a = e.0 as usize;
            let b = e.1 as usize;
            proof {
                assert(arcs[j as int] == (e.0 as int, e.1 as int, e.2 as int));
                assert(0 <= arcs[j as int].0 < n && 0 <= arcs[j as int].1 < n);
                assert(arcs[j as int].2 == DAG_WEIGHT as int);
            }
            if reached[a] {
                proof {
                    lemma_relax(
                        arcs,
                        root as int,
                        n as int,
                        reached0,
                        dist0,
                        reached@,
                        dist@,
                        pred@,
                        j as int,
                    );
                }
                let through: i64 = dist[a] + e.2;
                if !reached[b] || through < dist[b] {
                    reached.set(b, true);
                    dist.set(b, through);
                    pred.set(b, e.0);
                }
            } else {
                proof {
                    lemma_skip(arcs, n as int, reached0, dist0, reached@, dist@, j as int);
                }
            }
            j += 1;
        }
        proof {
            lemma_round(arcs, root as int, n as int, reached0, dist0, reached@, dist@, k as int);
        }
        k += 1;
    }
    proof {
        assert forall|v: int| 0 <= v < n implies (#[trigger] reached@[v] <==> reachable(
            arcs,
            root as int,
            v,
        )) by {
            lemma_depths(arcs, root as int, n as int, reached@, dist@, pred@, v);
        }
        assert forall|v: int| 0 <= v < n && #[trigger] reached@[v] implies dist@[v] <= 0
            && has_depth(arcs, root as int, v, (-dist@[v]) as nat) by {
            lemma_depths(arcs, root as int, n as int, reached@, dist@, pred@, v);
        }
        assert forall|v: int| 0 <= v < n && #[trigger] reached@[v] && v != root implies pred@[v]
            < n && has_arc(arcs, pred@[v] as int, v) && reached@[pred@[v] as int]
            && dist@[pred@[v] as int] == dist@[v] + 1 by {
            lemma_depths(arcs, root as int, n as int, reached@, dist@, pred@, v);
        }
    }
    Depths { reached, dist, pred }
}

} // verus!
