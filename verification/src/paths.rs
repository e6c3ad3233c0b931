//! Path extraction: the longest walk from each recorded root.
//!
//! A root without an outgoing arc has no path: the result for it is empty,
//! not the root alone.

use vstd::prelude::*;

use crate::dag::{covered, is_root, single_entry, single_exit, VertexDag};
use crate::longest::{as_arcs, bellman_ford, has_depth, tables};
use crate::rank::pair_le;
use crate::store::graph_edge_list;
use crate::walks::{
    has_arc, has_in_arc, has_out_arc, has_walk_of, is_walk, joins,
    lemma_arc_connects, lemma_walk_stretch, lemma_walk_within, reachable, touched, Arcs,
};

verus! {

/// Node indices read as integers.
pub open spec fn ints(s: Seq<u32>) -> Seq<int> {
    Seq::new(s.len(), |i: int| s[i] as int)
}

/// `p` is a walk from `root` that no walk from `root` exceeds in length.
pub open spec fn is_longest_from(arcs: Arcs, root: int, p: Seq<int>) -> bool {
    &&& is_walk(arcs, p)
    &&& p[0] == root
    &&& forall|q: Seq<int>| #[trigger] is_walk(arcs, q) && q[0] == root ==> q.len() <= p.len()
}

/// The members of `roots` below `n`, in ascending order.
pub open spec fn root_list(roots: Set<u32>, n: int) -> Seq<u32>
    decreases n,
{
    if n <= 0 {
        Seq::empty()
    } else if roots.contains((n - 1) as u32) {
        root_list(roots, n - 1).push((n - 1) as u32)
    } else {
        root_list(roots, n - 1)
    }
}

/// `v` lies on one of `paths`.
pub open spec fn on_some_path(paths: Seq<Vec<u32>>, v: int) -> bool {
    exists|i: int, j: int|
        0 <= i < paths.len() && 0 <= j < paths[i]@.len() && (#[trigger] paths[i]@[j]) as int == v
}

/// Where no node has two exits, of two walks from one start the shorter
/// runs along the longer.
pub proof fn lemma_walks_agree(arcs: Arcs, p: Seq<int>, q: Seq<int>, i: int)
    requires
        single_exit(arcs),
        is_walk(arcs, p),
        is_walk(arcs, q),
        p[0] == q[0],
        0 <= i < q.len() <= p.len(),
    ensures
        q[i] == p[i],
    decreases i,
{
    if i > 0 {
        lemma_walks_agree(arcs, p, q, i - 1);
        assert(has_arc(arcs, p[i - 1], p[i - 1 + 1]));
        assert(has_arc(arcs, q[i - 1], q[i - 1 + 1]));
        let s = choose|s: int|
            0 <= s < arcs.len() && (#[trigger] arcs[s]).0 == p[i - 1] && arcs[s].1 == p[i];
        let t = choose|t: int|
            0 <= t < arcs.len() && (#[trigger] arcs[t]).0 == q[i - 1] && arcs[t].1 == q[i];
        reveal(single_exit);
        assert(s == t);
    }
}

/// Every recorded root below `n` is listed, and nothing else is.
pub proof fn lemma_root_list(roots: Set<u32>, n: int)
    requires
        0 <= n <= u32::MAX,
    ensures
        forall|i: int|
            0 <= i < root_list(roots, n).len() ==> roots.contains(#[trigger] root_list(roots, n)[i])
                && root_list(roots, n)[i] < n,
        forall|r: u32|
            roots.contains(r) && r < n ==> exists|i: int|
                0 <= i < root_list(roots, n).len() && #[trigger] root_list(roots, n)[i] == r,
        forall|i: int, j: int|
            0 <= i < j < root_list(roots, n).len() ==> #[trigger] root_list(roots, n)[i]
                < #[trigger] root_list(roots, n)[j],
    decreases n,
{
    if n > 0 {
        lemma_root_list(roots, n - 1);
        let shorter = root_list(roots, n - 1);
        let whole = root_list(roots, n);
        assert forall|r: u32| roots.contains(r) && r < n implies exists|i: int|
            0 <= i < whole.len() && #[trigger] whole[i] == r by {
            if r < n - 1 {
                let i = choose|i: int| 0 <= i < shorter.len() && #[trigger] shorter[i] == r;
                assert(whole[i] == r);
            } else {
                assert(whole[whole.len() - 1] == r);
            }
        }
    }
}

/// In a skeleton of chains, the longest walk from a root passes through
/// every node that the root reaches.
pub proof fn lemma_longest_covers(arcs: Arcs, root: int, p: Seq<int>, v: int)
    requires
        single_exit(arcs),
        is_longest_from(arcs, root, p),
        reachable(arcs, root, v),
    ensures
        exists|j: int| 0 <= j < p.len() && p[j] == v,
{
    let q = choose|q: Seq<int>| #[trigger] joins(arcs, q, root, v);
    assert(is_walk(arcs, q) && q[0] == root);
    lemma_walks_agree(arcs, p, q, q.len() - 1);
    assert(p[q.len() - 1] == v);
}

/// Every node of a walk of two or more nodes lies on an arc.
pub proof fn lemma_walk_touched(arcs: Arcs, p: Seq<int>, j: int)
    requires
        is_walk(arcs, p),
        p.len() >= 2,
        0 <= j < p.len(),
    ensures
        touched(arcs, p[j]),
{
    if j + 1 < p.len() {
        assert(has_arc(arcs, p[j], p[j + 1]));
        let s = choose|s: int|
            0 <= s < arcs.len() && (#[trigger] arcs[s]).0 == p[j] && arcs[s].1 == p[j + 1];
        lemma_arc_connects(arcs, s);
    } else {
        assert(has_arc(arcs, p[j - 1], p[j - 1 + 1]));
        let s = choose|s: int|
            0 <= s < arcs.len() && (#[trigger] arcs[s]).0 == p[j - 1] && arcs[s].1 == p[j];
        lemma_arc_connects(arcs, s);
    }
}

/// On a longest walk from `root` every node lies as deep as its place: the
/// walk reaches it in that many arcs, and no walk from `root` in more.
pub proof fn lemma_depth_along_longest(arcs: Arcs, root: int, p: Seq<int>, i: int)
    requires
        is_longest_from(arcs, root, p),
        0 <= i < p.len(),
    ensures
        reachable(arcs, root, p[i]),
        has_depth(arcs, root, p[i], i as nat),
{
    let head = p.subrange(0, i + 1);
    let tail = p.subrange(i, p.len() as int);
    lemma_walk_stretch(arcs, p, 0, i + 1);
    lemma_walk_stretch(arcs, p, i, p.len() as int);
    assert(joins(arcs, head, root, p[i]) && head.len() == i as nat + 1);
    assert forall|hops: nat| #[trigger] has_walk_of(arcs, root, p[i], hops) implies hops <= i by {
        let q = choose|q: Seq<int>| #[trigger] joins(arcs, q, root, p[i]) && q.len() == hops + 1;
        crate::walks::lemma_walk_concat(arcs, q, tail);
        let long = q + tail.subrange(1, tail.len() as int);
        assert(is_walk(arcs, long) && long[0] == root);
    }
}

/// Where no node has two entries, walks from two different nodes that no arc
/// enters never meet.
pub proof fn lemma_chains_apart(arcs: Arcs, p: Seq<int>, q: Seq<int>, i: int, j: int)
    requires
        single_entry(arcs),
        is_walk(arcs, p),
        is_walk(arcs, q),
        p[0] != q[0],
        !has_in_arc(arcs, p[0]),
        !has_in_arc(arcs, q[0]),
        0 <= i < p.len(),
        0 <= j < q.len(),
    ensures
        p[i] != q[j],
    decreases i,
{
    if p[i] == q[j] {
        if i == 0 && j > 0 {
            assert(has_arc(arcs, q[j - 1], q[j - 1 + 1]));
            let t = choose|t: int|
                0 <= t < arcs.len() && (#[trigger] arcs[t]).0 == q[j - 1] && arcs[t].1 == q[j];
            lemma_arc_connects(arcs, t);
        } else if i > 0 && j == 0 {
            assert(has_arc(arcs, p[i - 1], p[i - 1 + 1]));
            let s = choose|s: int|
                0 <= s < arcs.len() && (#[trigger] arcs[s]).0 == p[i - 1] && arcs[s].1 == p[i];
            lemma_arc_connects(arcs, s);
        } else if i > 0 && j > 0 {
            assert(has_arc(arcs, p[i - 1], p[i - 1 + 1]));
            assert(has_arc(arcs, q[j - 1], q[j - 1 + 1]));
            let s = choose|s: int|
                0 <= s < arcs.len() && (#[trigger] arcs[s]).0 == p[i - 1] && arcs[s].1 == p[i];
            let t = choose|t: int|
                0 <= t < arcs.len() && (#[trigger] arcs[t]).0 == q[j - 1] && arcs[t].1 == q[j];
            assert(s == t) by {
                reveal(single_entry);
            }
            lemma_chains_apart(arcs, p, q, i - 1, j - 1);
        }
    }
}

/// A node with an exit starts a walk of one arc.
pub proof fn lemma_exit_walk(arcs: Arcs, a: int)
    requires
        has_out_arc(arcs, a),
    ensures
        exists|b: int| has_arc(arcs, a, b) && #[trigger] has_walk_of(arcs, a, b, 1),
{
    let s = choose|s: int| 0 <= s < arcs.len() && (#[trigger] arcs[s]).0 == a;
    let b = arcs[s].1;
    lemma_arc_connects(arcs, s);
    let p = seq![a, b];
    assert(is_walk(arcs, p)) by {
        assert forall|i: int| #![trigger p[i]] 0 <= i < p.len() - 1 implies has_arc(
            arcs,
            p[i],
            p[i + 1],
        ) by {
            assert(p[i] == a && p[i + 1] == b);
        }
    }
    assert(joins(arcs, p, a, b) && p.len() == 1nat + 1);
    assert(has_walk_of(arcs, a, b, 1));
}

impl VertexDag {
    /// The longest walk from `root` along the skeleton, from `root` to the
    /// deepest node it reaches. Empty when no arc leaves `root`.
    pub fn longest_path(&self, root: u32) -> (path: Vec<u32>)
        requires
            self.wf(),
        ensures
            path@.len() > 0 <==> has_out_arc(self.dag_arcs(), root as int),
            path@.len() > 0 ==> is_longest_from(self.dag_arcs(), root as int, ints(path@)),
            ints(path@).no_duplicates(),
            forall|i: int|
                0 <= i < path@.len() ==> has_depth(
                    self.dag_arcs(),
                    root as int,
                    (#[trigger] path@[i]) as int,
                    i as nat,
                ),
    {
        let n = self.vertices.len();
        let ghost arcs = self.dag_arcs();
        if root as usize >= n {
            proof {
                if has_out_arc(arcs, root as int) {
                    let s = choose|s: int| 0 <= s < arcs.len() && (#[trigger] arcs[s]).0 == root as int;
                    assert(0 <= arcs[s].0 < n);
                }
            }
            return Vec::new();
        }
        let edges = graph_edge_list(&self.graph);
        proof {
            assert(as_arcs(edges@) =~= arcs);
        }
        let d = bellman_ford(&edges, n, root);
        let mut deep: usize = root as usize;
        let mut v: usize = 0;
        while v < n
            invariant
                v <= n,
                deep < n,
                d.reached@.len() == n,
                d.dist@.len() == n,
                d.reached@[deep as int],
                d.dist@[deep as int] <= d.dist@[root as int],
                forall|u: int|
                    0 <= u < v && #[trigger] d.reached@[u] ==> d.dist@[deep as int] <= d.dist@[u],
            decreases n - v,
        {
            if d.reached[v] && d.dist[v] < d.dist[deep] {
                deep = v;
            }
            v += 1;
        }
        if d.dist[deep] == 0 {
            proof {
                if has_out_arc(arcs, root as int) {
                    lemma_exit_walk(arcs, root as int);
                    let b = choose|b: int|
                        has_arc(arcs, root as int, b) && #[trigger] has_walk_of(
                            arcs,
                            root as int,
                            b,
                            1,
                        );
                    let s = choose|s: int|
                        0 <= s < arcs.len() && (#[trigger] arcs[s]).0 == root as int && arcs[s].1
                            == b;
                    assert(0 <= arcs[s].1 < n);
                    let w = choose|p: Seq<int>| #[trigger]
                        joins(arcs, p, root as int, b) && p.len() == 1 + 1;
                    assert(reachable(arcs, root as int, b));
                    assert(d.reached@[b]);
                }
            }
            return Vec::new();
        }
        let mut rev: Vec<u32> = Vec::new();
        rev.push(deep as u32);
        let mut cur: usize = deep;
        while cur != root as usize
            invariant
                cur < n <= u32::MAX,
                root < n,
                tables(n as int, root as int, d.reached@, d.dist@, d.pred@),
                forall|u: int|
                    0 <= u < n && #[trigger] d.reached@[u] ==> d.dist@[u] <= 0,
                forall|u: int|
                    0 <= u < n && #[trigger] d.reached@[u] && u != root ==> d.pred@[u] < n
                        && has_arc(arcs, d.pred@[u] as int, u) && d.reached@[d.pred@[u] as int]
                        && d.dist@[d.pred@[u] as int] == d.dist@[u] + 1,
                rev@.len() >= 1,
                rev@[rev@.len() - 1] == cur,
                forall|i: int|
                    0 <= i < rev@.len() ==> (#[trigger] rev@[i]) < n && d.reached@[rev@[i] as int]
                        && d.dist@[rev@[i] as int] == d.dist@[deep as int] + i,
                forall|i: int|
                    0 <= i < rev@.len() - 1 ==> has_arc(
                        arcs,
                        rev@[i + 1] as int,
                        (#[trigger] rev@[i]) as int,
                    ),
            decreases -d.dist@[cur as int],
        {
            let before = d.pred[cur];
            rev.push(before);
            cur = before as usize;
        }
        let len = rev.len();
        let mut path: Vec<u32> = Vec::new();
        let mut i: usize = len;
        while i > 0
            invariant
                i <= len,
                len == rev@.len(),
                path@.len() == len - i,
                forall|t: int| 0 <= t < path@.len() ==> #[trigger] path@[t] == rev@[len - 1 - t],
            decreases i,
        {
            i -= 1;
            path.push(rev[i]);
        }
        proof {
            let p = ints(path@);
            assert(d.dist@[deep as int] == -(len - 1));
            assert forall|t: int| 0 <= t < path@.len() implies has_depth(
                arcs,
                root as int,
                (#[trigger] path@[t]) as int,
                t as nat,
            ) by {
                let u = rev@[len - 1 - t] as int;
                assert(d.reached@[u]);
                assert(d.dist@[u] == -t);
            }
            assert(is_walk(arcs, p)) by {
                assert forall|t: int| #![trigger p[t]] 0 <= t < p.len() - 1 implies has_arc(
                    arcs,
                    p[t],
                    p[t + 1],
                ) by {
                    let s = len - 2 - t;
                    assert(has_arc(arcs, rev@[s + 1] as int, rev@[s] as int));
                }
            }
            assert forall|q: Seq<int>| #[trigger] is_walk(arcs, q) && q[0] == root as int implies q.len()
                <= p.len() by {
                lemma_walk_within(arcs, n as int, q);
                let last = q[q.len() - 1];
                assert(joins(arcs, q, root as int, last));
                assert(d.reached@[last]);
                assert(has_walk_of(arcs, root as int, last, (q.len() - 1) as nat));
            }
            crate::walks::lemma_walk_distinct(arcs, p);
            assert(has_out_arc(arcs, root as int)) by {
                assert(has_arc(arcs, p[0int], p[0int + 1]));
                let s = choose|s: int|
                    0 <= s < arcs.len() && (#[trigger] arcs[s]).0 == p[0] && arcs[s].1 == p[1];
                lemma_arc_connects(arcs, s);
            }
        }
        path
    }

    /// The longest walk from each recorded root, the lowest root first (see
    /// `rank`). Together the walks pass through every node that lies on an
    /// arc, and through no other.
    pub fn get_paths(&self) -> (paths: Vec<Vec<u32>>)
        requires
            self.wf(),
        ensures
            paths@.len() == root_list(self.roots(), self.table().len() as int).len(),
            forall|i: int|
                0 <= i < paths@.len() ==> (#[trigger] paths@[i])@.len() >= 2
                    && self.roots().contains(paths@[i]@[0]) && is_longest_from(
                    self.dag_arcs(),
                    paths@[i]@[0] as int,
                    ints(paths@[i]@),
                ),
            forall|i: int, j: int|
                0 <= i < j < paths@.len() ==> pair_le(
                    self.rank((#[trigger] paths@[i])@[0]),
                    self.rank((#[trigger] paths@[j])@[0]),
                ) && paths@[i]@[0] != paths@[j]@[0],
            forall|v: int| touched(self.dag_arcs(), v) <==> on_some_path(paths@, v),
            forall|i: int, j: int, a: int, b: int|
                0 <= i < j < paths@.len() && 0 <= a < paths@[i]@.len() && 0 <= b < paths@[j]@.len()
                    ==> (#[trigger] paths@[i]@[a]) != (#[trigger] paths@[j]@[b]),
    {
        let n = self.vertices.len();
        let ghost arcs = self.dag_arcs();
        let ghost roots = self.roots();
        let starts = self.ranked_roots();
        let mut paths: Vec<Vec<u32>> = Vec::new();
        let mut k: usize = 0;
        while k < starts.len()
            invariant
                k <= starts@.len(),
                n == self.table().len(),
                arcs == self.dag_arcs(),
                roots == self.roots(),
                self.wf(),
                forall|i: int|
                    0 <= i < starts@.len() ==> roots.contains(#[trigger] starts@[i]) && starts@[i]
                        < n,
                paths@.len() == k,
                forall|i: int|
                    0 <= i < paths@.len() ==> (#[trigger] paths@[i])@.len() >= 2 && paths@[i]@[0]
                        == starts@[i] && is_longest_from(
                        arcs,
                        starts@[i] as int,
                        ints(paths@[i]@),
                    ),
            decreases starts@.len() - k,
        {
            let r: u32 = starts[k];
            let path = self.longest_path(r);
            proof {
                assert(is_root(arcs, r as int));
                assert(ints(path@).len() == path@.len());
                assert(ints(path@)[0] == path@[0] as int);
                if path@.len() == 1 {
                    lemma_exit_walk(arcs, r as int);
                    let b = choose|b: int|
                        has_arc(arcs, r as int, b) && #[trigger] has_walk_of(arcs, r as int, b, 1);
                    let w = choose|p: Seq<int>| #[trigger]
                        joins(arcs, p, r as int, b) && p.len() == 1 + 1;
                    assert(is_walk(arcs, w) && w[0] == r as int);
                }
            }
            paths.push(path);
            k += 1;
        }
        proof {
            assert forall|i: int, j: int, a: int, b: int|
                0 <= i < j < paths@.len() && 0 <= a < paths@[i]@.len() && 0 <= b
                    < paths@[j]@.len() implies (#[trigger] paths@[i]@[a]) != (
            #[trigger] paths@[j]@[b]) by {
                let p = ints(paths@[i]@);
                let q = ints(paths@[j]@);
                assert(is_root(arcs, starts@[i] as int) && is_root(arcs, starts@[j] as int));
                lemma_chains_apart(arcs, p, q, a, b);
                assert(p[a] == paths@[i]@[a] as int && q[b] == paths@[j]@[b] as int);
            }
            assert forall|v: int| touched(arcs, v) <==> on_some_path(paths@, v) by {
                if touched(arcs, v) {
                    reveal(covered);
                    let root = choose|root: u32|
                        roots.contains(root) && #[trigger] reachable(arcs, root as int, v);
                    assert(is_root(arcs, root as int));
                    assert(root < n) by {
                        let s = choose|s: int|
                            0 <= s < arcs.len() && (#[trigger] arcs[s]).0 == root as int;
                        assert(0 <= arcs[s].0 < n);
                    }
                    let i = choose|i: int| 0 <= i < starts@.len() && #[trigger] starts@[i] == root;
                    let p = ints(paths@[i]@);
                    lemma_longest_covers(arcs, root as int, p, v);
                    let j = choose|j: int| 0 <= j < p.len() && p[j] == v;
                    assert(paths@[i]@[j] as int == v);
                }
                if on_some_path(paths@, v) {
                    let (i, j) = choose|i: int, j: int|
                        0 <= i < paths@.len() && 0 <= j < paths@[i]@.len() && (
                        #[trigger] paths@[i]@[j]) as int == v;
                    let p = ints(paths@[i]@);
                    assert(p[j] == v);
                    lemma_walk_touched(arcs, p, j);
                }
            }
        }
        paths
    }
}

} // verus!
