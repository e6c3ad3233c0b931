//! Orientation: laying directed chains over the mesh graph.
//!
//! Nodes are taken as roots in index order. From an unvisited root a chain
//! grows one arc at a time: of the mesh neighbours of the chain's end that
//! are unvisited and do not already lead back to that end, the one nearest
//! to the root in the mesh graph is chosen, the first listed among equals.
//! The chain ends when no neighbour qualifies. A root whose chain gained an
//! arc is recorded; a root that stayed alone is not.
//!
//! Neighbours are listed with the most recently linked first. So the single
//! triangle with corners 0, 1, 2, whose sides are linked in the order 0-1,
//! 1-2, 2-0, is oriented from root 0 as 0 -> 2 -> 1: both neighbours of 0
//! are one side from the root, and 2 was linked last. Its one path is
//! `[0, 2, 1]`.
//!
//! A node with neighbours can still end on no arc: when its turn as a root
//! comes, all its neighbours may already lie on chains. Such a node has no
//! path, like a node without neighbours.

use rustc_hash::FxHashSet;
use vstd::prelude::*;

use crate::dag::{
    chains_ok, covered, embedded, is_root, mesh_ok, roots_are, single_entry, single_exit,
    symmetric, VertexDag, DAG_WEIGHT,
};
use crate::seen::{seen_contains, seen_insert, seen_new};
use crate::store::{
    graph_add_edge, graph_edge_list, graph_has_path, graph_hops, graph_neighbors,
};
use crate::walks::{
    acyclic, arcs_within, has_arc, has_in_arc, has_out_arc, hop_distance, lemma_acyclic_push,
    lemma_arc_connects, lemma_dead_end, lemma_in_arc_push, lemma_out_arc_push,
    lemma_out_neighbors, lemma_reach_prepend, lemma_reach_push, lemma_reach_self,
    lemma_reach_step, out_neighbors, reachable, touched, Arcs,
};

verus! {

/// The number of arcs between `c` and `root` in the mesh graph.
pub open spec fn hops_to(mesh: Arcs, c: int, root: int) -> nat {
    match hop_distance(mesh, c, root) {
        Some(d) => d,
        None => 0,
    }
}

/// `c` may follow `frontier`: it is unvisited and does not lead to `frontier`.
pub open spec fn eligible(dag: Arcs, visited: Set<u32>, frontier: int, c: int) -> bool {
    !visited.contains(c as u32) && !reachable(dag, c, frontier)
}

/// The choice among the first `k` of `nbrs`: the eligible node nearest to
/// `root`, the earliest of those that are equally near.
pub open spec fn pick(
    mesh: Arcs,
    dag: Arcs,
    visited: Set<u32>,
    frontier: int,
    root: int,
    nbrs: Seq<int>,
    k: int,
) -> Option<int>
    decreases k,
{
    if k <= 0 {
        None
    } else {
        let c = nbrs[k - 1];
        match pick(mesh, dag, visited, frontier, root, nbrs, k - 1) {
            Some(b) => if eligible(dag, visited, frontier, c) && hops_to(mesh, c, root) < hops_to(
                mesh,
                b,
                root,
            ) {
                Some(c)
            } else {
                Some(b)
            },
            None => if eligible(dag, visited, frontier, c) {
                Some(c)
            } else {
                None
            },
        }
    }
}

/// The node that follows `frontier` on the chain from `root`, if any.
pub open spec fn next_node(mesh: Arcs, dag: Arcs, visited: Set<u32>, frontier: int, root: int)
    -> Option<int> {
    let nbrs = out_neighbors(mesh, frontier);
    pick(mesh, dag, visited, frontier, root, nbrs, nbrs.len() as int)
}

/// The skeleton and the visited set after the chain from `root`, now at
/// `frontier`, has grown by at most `fuel` arcs.
pub open spec fn walk_on(
    mesh: Arcs,
    dag: Arcs,
    visited: Set<u32>,
    frontier: int,
    root: int,
    fuel: nat,
) -> (Arcs, Set<u32>)
    decreases fuel,
{
    if fuel == 0 {
        (dag, visited)
    } else {
        match next_node(mesh, dag, visited, frontier, root) {
            None => (dag, visited),
            Some(c) => walk_on(
                mesh,
                dag.push((frontier, c, DAG_WEIGHT as int)),
                visited.insert(c as u32),
                c,
                root,
                (fuel - 1) as nat,
            ),
        }
    }
}

/// The skeleton after every node from `r` on had its turn as a root.
pub open spec fn orient_on(mesh: Arcs, n: int, r: int, dag: Arcs, visited: Set<u32>) -> Arcs
    decreases n - r,
{
    if r >= n {
        dag
    } else if visited.contains(r as u32) {
        orient_on(mesh, n, r + 1, dag, visited)
    } else {
        let grown = walk_on(mesh, dag, visited.insert(r as u32), r, r, n as nat);
        orient_on(mesh, n, r + 1, grown.0, grown.1)
    }
}

/// The nodes that lie on an arc.
pub open spec fn touched_set(dag: Arcs) -> Set<u32> {
    Set::new(|x: u32| touched(dag, x as int))
}

/// The skeleton that orientation makes of `dag` over `mesh`. Nodes already
/// on an arc count as visited.
pub open spec fn orient(mesh: Arcs, n: int, dag: Arcs) -> Arcs {
    orient_on(mesh, n, 0, dag, touched_set(dag))
}

/// Every node on an arc is visited.
#[verifier::opaque]
pub open spec fn touched_visited(dag: Arcs, visited: Set<u32>) -> bool {
    forall|v: int| #[trigger] touched(dag, v) ==> visited.contains(v as u32)
}

/// Between chains: a well-formed skeleton whose arcs join visited nodes.
pub open spec fn settled(mesh: Arcs, dag: Arcs, n: int, visited: Set<u32>, roots: Set<u32>)
    -> bool {
    &&& n <= u32::MAX
    &&& mesh_ok(mesh, n)
    &&& chains_ok(dag, n)
    &&& embedded(dag, mesh)
    &&& roots_are(roots, dag)
    &&& covered(dag, roots)
    &&& touched_visited(dag, visited)
}

/// `roots` holds the roots of `dag` but for `root`.
#[verifier::opaque]
pub open spec fn roots_but(roots: Set<u32>, dag: Arcs, root: int) -> bool {
    forall|r: u32| roots.contains(r) <==> (is_root(dag, r as int) && r != root)
}

/// Every node on an arc can be reached from a recorded root or from `root`.
#[verifier::opaque]
pub open spec fn covered_with(dag: Arcs, roots: Set<u32>, root: int) -> bool {
    forall|v: int| #[trigger]
        touched(dag, v) ==> reachable(dag, root, v) || exists|r: u32|
            roots.contains(r) && #[trigger] reachable(dag, r as int, v)
}

/// While the chain from `root` grows and ends at `frontier`; `root` is not
/// recorded yet.
pub open spec fn walking(
    mesh: Arcs,
    dag: Arcs,
    n: int,
    visited: Set<u32>,
    roots: Set<u32>,
    root: int,
    frontier: int,
) -> bool {
    &&& 0 <= root < n <= u32::MAX
    &&& 0 <= frontier < n
    &&& mesh_ok(mesh, n)
    &&& chains_ok(dag, n)
    &&& embedded(dag, mesh)
    &&& touched_visited(dag, visited)
    &&& visited.contains(root as u32)
    &&& visited.contains(frontier as u32)
    &&& !has_in_arc(dag, root)
    &&& !has_out_arc(dag, frontier)
    &&& (frontier != root ==> has_in_arc(dag, frontier) && has_out_arc(dag, root))
    &&& (frontier == root ==> !has_out_arc(dag, root))
    &&& reachable(dag, root, frontier)
    &&& reachable(mesh, frontier, root)
    &&& roots_but(roots, dag, root)
    &&& covered_with(dag, roots, root)
}

/// A chain may start at any visited node that lies on no arc.
proof fn lemma_walk_start(
    mesh: Arcs,
    dag: Arcs,
    n: int,
    visited: Set<u32>,
    roots: Set<u32>,
    root: int,
)
    requires
        settled(mesh, dag, n, visited, roots),
        0 <= root < n,
        visited.contains(root as u32),
        !touched(dag, root),
    ensures
        walking(mesh, dag, n, visited, roots, root, root),
{
    reveal(covered);
    reveal(covered_with);
    reveal(roots_but);
    lemma_reach_self(dag, root);
    lemma_reach_self(mesh, root);
    assert forall|v: int| #[trigger] touched(dag, v) implies reachable(dag, root, v) || exists|
        r: u32,
    |
        roots.contains(r) && #[trigger] reachable(dag, r as int, v) by {}
}

/// A new arc from a node without exit to a node without entry, which does
/// not lead back, keeps chains chains.
proof fn lemma_step_chains(dag: Arcs, n: int, frontier: int, next: int)
    requires
        chains_ok(dag, n),
        0 <= frontier < n,
        0 <= next < n,
        !has_out_arc(dag, frontier),
        !has_in_arc(dag, next),
        !reachable(dag, next, frontier),
    ensures
        chains_ok(dag.push((frontier, next, DAG_WEIGHT as int)), n),
{
    reveal(single_exit);
    reveal(single_entry);
    let grown = dag.push((frontier, next, DAG_WEIGHT as int));
    lemma_acyclic_push(dag, frontier, next, DAG_WEIGHT as int);
    assert forall|i: int, j: int|
        0 <= i < grown.len() && 0 <= j < grown.len() && (#[trigger] grown[i]).0 == (
        #[trigger] grown[j]).0 implies i == j by {
        if i < dag.len() {
            lemma_arc_connects(dag, i);
        }
        if j < dag.len() {
            lemma_arc_connects(dag, j);
        }
    }
    assert forall|i: int, j: int|
        0 <= i < grown.len() && 0 <= j < grown.len() && (#[trigger] grown[i]).1 == (
        #[trigger] grown[j]).1 implies i == j by {
        if i < dag.len() {
            lemma_arc_connects(dag, i);
        }
        if j < dag.len() {
            lemma_arc_connects(dag, j);
        }
    }
}

/// A new arc along a mesh connection keeps the skeleton on the mesh.
proof fn lemma_step_embedded(mesh: Arcs, dag: Arcs, frontier: int, next: int)
    requires
        embedded(dag, mesh),
        has_arc(mesh, frontier, next),
    ensures
        embedded(dag.push((frontier, next, DAG_WEIGHT as int)), mesh),
{
    reveal(embedded);
    let grown = dag.push((frontier, next, DAG_WEIGHT as int));
    assert forall|i: int| 0 <= i < grown.len() implies has_arc(
        mesh,
        (#[trigger] grown[i]).0,
        grown[i].1,
    ) by {
        if i < dag.len() {
            assert(grown[i] == dag[i]);
        }
    }
}

/// Which nodes lie on an arc once `frontier -> next` is added.
proof fn lemma_step_touched(dag: Arcs, frontier: int, next: int, v: int)
    ensures
        has_out_arc(dag.push((frontier, next, DAG_WEIGHT as int)), v) <==> (has_out_arc(dag, v)
            || v == frontier),
        has_in_arc(dag.push((frontier, next, DAG_WEIGHT as int)), v) <==> (has_in_arc(dag, v) || v
            == next),
{
    lemma_out_arc_push(dag, (frontier, next, DAG_WEIGHT as int), v);
    lemma_in_arc_push(dag, (frontier, next, DAG_WEIGHT as int), v);
}

/// A new arc at the end of the chain from `root` keeps every node on an arc
/// within reach of a recorded root or of `root`.
proof fn lemma_step_cover(dag: Arcs, roots: Set<u32>, root: int, frontier: int, next: int)
    requires
        covered_with(dag, roots, root),
        reachable(dag, root, frontier),
    ensures
        covered_with(dag.push((frontier, next, DAG_WEIGHT as int)), roots, root),
        reachable(dag.push((frontier, next, DAG_WEIGHT as int)), root, frontier),
        reachable(dag.push((frontier, next, DAG_WEIGHT as int)), root, next),
{
    reveal(covered_with);
    let e = (frontier, next, DAG_WEIGHT as int);
    let grown = dag.push(e);
    lemma_reach_push(dag, e, root, frontier);
    crate::walks::lemma_has_arc_push(dag, e, frontier, next);
    lemma_reach_step(grown, root, frontier, next);
    assert forall|v: int| #[trigger] touched(grown, v) implies reachable(grown, root, v) || exists|
        r: u32,
    |
        roots.contains(r) && #[trigger] reachable(grown, r as int, v) by {
        lemma_step_touched(dag, frontier, next, v);
        if touched(dag, v) {
            if reachable(dag, root, v) {
                lemma_reach_push(dag, e, root, v);
            } else {
                let r = choose|r: u32| roots.contains(r) && #[trigger] reachable(dag, r as int, v);
                lemma_reach_push(dag, e, r as int, v);
            }
        }
    }
}

/// A new arc whose ends are visited afterwards keeps the arcs among the
/// visited nodes.
proof fn lemma_step_visited(dag: Arcs, visited: Set<u32>, n: int, frontier: int, next: int)
    requires
        touched_visited(dag, visited),
        0 <= frontier < n <= u32::MAX,
        0 <= next < n,
        visited.contains(frontier as u32),
    ensures
        touched_visited(
            dag.push((frontier, next, DAG_WEIGHT as int)),
            visited.insert(next as u32),
        ),
        !visited.contains(next as u32) ==> !touched(dag, next),
{
    reveal(touched_visited);
    let grown = dag.push((frontier, next, DAG_WEIGHT as int));
    let seen = visited.insert(next as u32);
    assert forall|v: int| #[trigger] touched(grown, v) implies seen.contains(v as u32) by {
        lemma_step_touched(dag, frontier, next, v);
        if touched(dag, v) {
            assert(visited.contains(v as u32));
        }
    }
}

/// A new arc from the end of the chain to a node on no arc leaves the roots
/// as they are, `root` aside.
proof fn lemma_step_roots(dag: Arcs, roots: Set<u32>, root: int, frontier: int, next: int)
    requires
        roots_but(roots, dag, root),
        !touched(dag, next),
        frontier != root ==> has_in_arc(dag, frontier),
    ensures
        roots_but(roots, dag.push((frontier, next, DAG_WEIGHT as int)), root),
{
    reveal(roots_but);
    let grown = dag.push((frontier, next, DAG_WEIGHT as int));
    assert forall|r: u32| roots.contains(r) <==> (is_root(grown, r as int) && r != root) by {
        lemma_step_touched(dag, frontier, next, r as int);
    }
}

/// One more arc keeps the chain a chain.
proof fn lemma_walk_step(
    mesh: Arcs,
    dag: Arcs,
    n: int,
    visited: Set<u32>,
    roots: Set<u32>,
    root: int,
    frontier: int,
    next: int,
)
    requires
        walking(mesh, dag, n, visited, roots, root, frontier),
        0 <= next < n,
        has_arc(mesh, frontier, next),
        eligible(dag, visited, frontier, next),
    ensures
        walking(
            mesh,
            dag.push((frontier, next, DAG_WEIGHT as int)),
            n,
            visited.insert(next as u32),
            roots,
            root,
            next,
        ),
{
    lemma_step_visited(dag, visited, n, frontier, next);
    lemma_step_chains(dag, n, frontier, next);
    lemma_step_embedded(mesh, dag, frontier, next);
    lemma_step_cover(dag, roots, root, frontier, next);
    lemma_step_roots(dag, roots, root, frontier, next);
    lemma_step_touched(dag, frontier, next, root);
    lemma_step_touched(dag, frontier, next, next);
    lemma_step_touched(dag, frontier, next, frontier);
    assert(reachable(mesh, next, root)) by {
        reveal(symmetric);
        lemma_reach_prepend(mesh, next, frontier, root);
    }
}

/// A finished chain leaves a well-formed skeleton: its root is recorded
/// exactly when the chain has an arc.
proof fn lemma_walk_end(
    mesh: Arcs,
    dag: Arcs,
    n: int,
    visited: Set<u32>,
    roots: Set<u32>,
    root: int,
    frontier: int,
)
    requires
        walking(mesh, dag, n, visited, roots, root, frontier),
    ensures
        frontier != root ==> settled(mesh, dag, n, visited, roots.insert(root as u32)),
        frontier == root ==> settled(mesh, dag, n, visited, roots),
{
    reveal(covered);
    reveal(covered_with);
    reveal(roots_but);
    if frontier != root {
        let more = roots.insert(root as u32);
        assert forall|v: int| #[trigger] touched(dag, v) implies exists|r: u32|
            more.contains(r) && #[trigger] reachable(dag, r as int, v) by {
            if reachable(dag, root, v) {
                assert(more.contains(root as u32) && reachable(dag, root as u32 as int, v));
            } else {
                let r = choose|r: u32| roots.contains(r) && #[trigger] reachable(dag, r as int, v);
                assert(more.contains(r));
            }
        }
    } else {
        assert forall|v: int| #[trigger] touched(dag, v) implies exists|r: u32|
            roots.contains(r) && #[trigger] reachable(dag, r as int, v) by {
            if reachable(dag, root, v) {
                lemma_dead_end(dag, root, v);
            }
        }
    }
}

/// The choice among the first `k` listed nodes is one of them, and eligible.
pub proof fn lemma_pick_is_eligible(
    mesh: Arcs,
    dag: Arcs,
    visited: Set<u32>,
    frontier: int,
    root: int,
    nbrs: Seq<int>,
    k: int,
)
    requires
        0 <= k <= nbrs.len(),
    ensures
        pick(mesh, dag, visited, frontier, root, nbrs, k) matches Some(c) ==> eligible(
            dag,
            visited,
            frontier,
            c,
        ) && exists|t: int| 0 <= t < k && nbrs[t] == c,
    decreases k,
{
    if k > 0 {
        lemma_pick_is_eligible(mesh, dag, visited, frontier, root, nbrs, k - 1);
        match pick(mesh, dag, visited, frontier, root, nbrs, k) {
            Some(c) => {
                if c == nbrs[k - 1] {
                    assert(0 <= k - 1 < k && nbrs[k - 1] == c);
                } else {
                    let t = choose|t: int| 0 <= t < k - 1 && nbrs[t] == c;
                    assert(0 <= t < k && nbrs[t] == c);
                }
            },
            None => {},
        }
    }
}

/// The choice among the first `k` listed nodes is the nearest eligible one:
/// no eligible node among them is nearer to the root, and none that is
/// listed earlier is as near. Where nothing is chosen, nothing is eligible.
pub proof fn lemma_pick_is_nearest(
    mesh: Arcs,
    dag: Arcs,
    visited: Set<u32>,
    frontier: int,
    root: int,
    nbrs: Seq<int>,
    k: int,
)
    requires
        0 <= k <= nbrs.len(),
    ensures
        match pick(mesh, dag, visited, frontier, root, nbrs, k) {
            Some(c) => exists|at: int|
                {
                    &&& 0 <= at < k
                    &&& nbrs[at] == c
                    &&& forall|t: int|
                        0 <= t < k && eligible(dag, visited, frontier, #[trigger] nbrs[t])
                            ==> hops_to(mesh, c, root) <= hops_to(mesh, nbrs[t], root)
                    &&& forall|t: int|
                        0 <= t < at && eligible(dag, visited, frontier, #[trigger] nbrs[t])
                            ==> hops_to(mesh, c, root) < hops_to(mesh, nbrs[t], root)
                },
            None => forall|t: int|
                0 <= t < k ==> !eligible(dag, visited, frontier, #[trigger] nbrs[t]),
        },
    decreases k,
{
    if k > 0 {
        lemma_pick_is_nearest(mesh, dag, visited, frontier, root, nbrs, k - 1);
        let last = nbrs[k - 1];
        match pick(mesh, dag, visited, frontier, root, nbrs, k - 1) {
            Some(b) => {
                let was = choose|at: int|
                    {
                        &&& 0 <= at < k - 1
                        &&& nbrs[at] == b
                        &&& forall|t: int|
                            0 <= t < k - 1 && eligible(dag, visited, frontier, #[trigger] nbrs[t])
                                ==> hops_to(mesh, b, root) <= hops_to(mesh, nbrs[t], root)
                        &&& forall|t: int|
                            0 <= t < at && eligible(dag, visited, frontier, #[trigger] nbrs[t])
                                ==> hops_to(mesh, b, root) < hops_to(mesh, nbrs[t], root)
                    };
                if eligible(dag, visited, frontier, last) && hops_to(mesh, last, root) < hops_to(
                    mesh,
                    b,
                    root,
                ) {
                    let at = k - 1;
                    assert(0 <= at < k && nbrs[at] == last);
                    assert forall|t: int|
                        0 <= t < at && eligible(
                            dag,
                            visited,
                            frontier,
                            #[trigger] nbrs[t],
                        ) implies hops_to(mesh, last, root) < hops_to(mesh, nbrs[t], root) by {}
                } else {
                    assert(0 <= was < k && nbrs[was] == b);
                }
            },
            None => {
                if eligible(dag, visited, frontier, last) {
                    let at = k - 1;
                    assert(0 <= at < k && nbrs[at] == last);
                }
            },
        }
    }
}

/// No arc is ever laid against an existing walk: the node chosen to follow
/// `frontier` is a mesh neighbour of `frontier`, is unvisited, and does not
/// lead to `frontier`.
pub proof fn lemma_chosen_never_returns(
    mesh: Arcs,
    dag: Arcs,
    visited: Set<u32>,
    frontier: int,
    root: int,
)
    ensures
        next_node(mesh, dag, visited, frontier, root) matches Some(c) ==> has_arc(mesh, frontier, c)
            && !visited.contains(c as u32) && !reachable(dag, c, frontier),
{
    let nbrs = out_neighbors(mesh, frontier);
    lemma_pick_is_eligible(mesh, dag, visited, frontier, root, nbrs, nbrs.len() as int);
    match next_node(mesh, dag, visited, frontier, root) {
        Some(c) => {
            let t = choose|t: int| 0 <= t < nbrs.len() && nbrs[t] == c;
            lemma_out_neighbors(mesh, frontier, t);
        },
        None => {},
    }
}

/// What a growing chain needs of its surroundings, roots aside.
pub open spec fn growing(mesh: Arcs, dag: Arcs, n: int, visited: Set<u32>, frontier: int) -> bool {
    &&& 0 <= frontier < n <= u32::MAX
    &&& arcs_within(mesh, n)
    &&& chains_ok(dag, n)
    &&& embedded(dag, mesh)
    &&& touched_visited(dag, visited)
    &&& visited.contains(frontier as u32)
    &&& !has_out_arc(dag, frontier)
}

/// A chain grown to its end leaves acyclic chains on the mesh.
pub proof fn lemma_walk_on_keeps(
    mesh: Arcs,
    dag: Arcs,
    n: int,
    visited: Set<u32>,
    frontier: int,
    root: int,
    fuel: nat,
)
    requires
        growing(mesh, dag, n, visited, frontier),
    ensures
        chains_ok(walk_on(mesh, dag, visited, frontier, root, fuel).0, n),
        embedded(walk_on(mesh, dag, visited, frontier, root, fuel).0, mesh),
        touched_visited(
            walk_on(mesh, dag, visited, frontier, root, fuel).0,
            walk_on(mesh, dag, visited, frontier, root, fuel).1,
        ),
    decreases fuel,
{
    if fuel > 0 {
        lemma_chosen_never_returns(mesh, dag, visited, frontier, root);
        match next_node(mesh, dag, visited, frontier, root) {
            None => {},
            Some(c) => {
                let s = choose|s: int|
                    0 <= s < mesh.len() && (#[trigger] mesh[s]).0 == frontier && mesh[s].1 == c;
                assert(0 <= mesh[s].1 < n);
                lemma_step_visited(dag, visited, n, frontier, c);
                lemma_step_chains(dag, n, frontier, c);
                lemma_step_embedded(mesh, dag, frontier, c);
                lemma_step_touched(dag, frontier, c, c);
                lemma_walk_on_keeps(
                    mesh,
                    dag.push((frontier, c, DAG_WEIGHT as int)),
                    n,
                    visited.insert(c as u32),
                    c,
                    root,
                    (fuel - 1) as nat,
                );
            },
        }
    }
}

/// Root after root, orientation leaves acyclic chains on the mesh.
pub proof fn lemma_orient_on_keeps(mesh: Arcs, n: int, r: int, dag: Arcs, visited: Set<u32>)
    requires
        0 <= r,
        n <= u32::MAX,
        arcs_within(mesh, n),
        chains_ok(dag, n),
        embedded(dag, mesh),
        touched_visited(dag, visited),
    ensures
        chains_ok(orient_on(mesh, n, r, dag, visited), n),
        embedded(orient_on(mesh, n, r, dag, visited), mesh),
    decreases n - r,
{
    if r < n {
        if visited.contains(r as u32) {
            lemma_orient_on_keeps(mesh, n, r + 1, dag, visited);
        } else {
            let seen = visited.insert(r as u32);
            assert(touched_visited(dag, seen) && !touched(dag, r)) by {
                reveal(touched_visited);
            }
            lemma_walk_on_keeps(mesh, dag, n, seen, r, r, n as nat);
            let grown = walk_on(mesh, dag, seen, r, r, n as nat);
            lemma_orient_on_keeps(mesh, n, r + 1, grown.0, grown.1);
        }
    }
}

/// Orientation never closes a cycle: whatever the mesh graph, the skeleton
/// it makes of acyclic chains is again acyclic chains, along mesh
/// connections only.
pub proof fn lemma_orient_acyclic(mesh: Arcs, n: int, dag: Arcs)
    requires
        0 <= n <= u32::MAX,
        arcs_within(mesh, n),
        chains_ok(dag, n),
        embedded(dag, mesh),
    ensures
        acyclic(orient(mesh, n, dag)),
        chains_ok(orient(mesh, n, dag), n),
        embedded(orient(mesh, n, dag), mesh),
{
    assert(touched_visited(dag, touched_set(dag))) by {
        reveal(touched_visited);
        assert forall|v: int| #[trigger] touched(dag, v) implies touched_set(dag).contains(
            v as u32,
        ) by {
            if has_out_arc(dag, v) {
                let s = choose|s: int| 0 <= s < dag.len() && (#[trigger] dag[s]).0 == v;
                assert(0 <= dag[s].0 < n);
            } else {
                let s = choose|s: int| 0 <= s < dag.len() && (#[trigger] dag[s]).1 == v;
                assert(0 <= dag[s].1 < n);
            }
        }
    }
    lemma_orient_on_keeps(mesh, n, 0, dag, touched_set(dag));
}

impl VertexDag {
    /// The set of nodes that lie on an arc of the skeleton.
    fn touched_nodes(&self) -> (visited: FxHashSet<u32>)
        requires
            self.wf(),
        ensures
            visited@ == touched_set(self.dag_arcs()),
    {
        let edges = graph_edge_list(&self.graph);
        let ghost arcs = self.dag_arcs();
        let mut visited = seen_new();
        let mut k: usize = 0;
        while k < edges.len()
            invariant
                k <= edges@.len(),
                edges@.len() == arcs.len(),
                forall|i: int|
                    0 <= i < edges@.len() ==> arcs[i] == ((#[trigger] edges@[i]).0 as int, edges@[i].1
                        as int, edges@[i].2 as int),
                forall|x: u32|
                    visited@.contains(x) <==> exists|i: int|
                        0 <= i < k && ((#[trigger] arcs[i]).0 == x || arcs[i].1 == x),
            decreases edges@.len() - k,
        {
            let e = edges[k];
            proof {
                assert(arcs[k as int].0 == e.0 && arcs[k as int].1 == e.1);
            }
            let ghost before = visited@;
            seen_insert(&mut visited, e.0);
            seen_insert(&mut visited, e.1);
            proof {
                assert forall|x: u32| visited@.contains(x) <==> exists|i: int|
                    0 <= i < k + 1 && ((#[trigger] arcs[i]).0 == x || arcs[i].1 == x) by {
                    if before.contains(x) {
                        let i = choose|i: int|
                            0 <= i < k && ((#[trigger] arcs[i]).0 == x || arcs[i].1 == x);
                        assert(0 <= i < k + 1 && (arcs[i].0 == x || arcs[i].1 == x));
                    }
                    if x == e.0 || x == e.1 {
                        assert(arcs[k as int].0 == x || arcs[k as int].1 == x);
                    }
                }
            }
            k += 1;
        }
        proof {
            assert forall|x: u32| visited@.contains(x) <==> touched(arcs, x as int) by {
                if visited@.contains(x) {
                    let i = choose|i: int|
                        0 <= i < k && ((#[trigger] arcs[i]).0 == x || arcs[i].1 == x);
                    lemma_arc_connects(arcs, i);
                }
                if has_out_arc(arcs, x as int) {
                    let i = choose|i: int| 0 <= i < arcs.len() && (#[trigger] arcs[i]).0 == x as int;
                    assert(0 <= i < k && (arcs[i].0 == x || arcs[i].1 == x));
                }
                if has_in_arc(arcs, x as int) {
                    let i = choose|i: int| 0 <= i < arcs.len() && (#[trigger] arcs[i]).1 == x as int;
                    assert(0 <= i < k && (arcs[i].0 == x || arcs[i].1 == x));
                }
            }
            assert(visited@ =~= touched_set(arcs));
        }
        visited
    }

    /// Chooses the node that follows `frontier` on the chain from `root`.
    fn pick_next(&self, visited: &FxHashSet<u32>, frontier: u32, root: u32) -> (next: Option<u32>)
        requires
            self.sized(),
            mesh_ok(self.mesh_arcs(), self.table().len() as int),
            frontier < self.table().len(),
            root < self.table().len(),
            reachable(self.mesh_arcs(), frontier as int, root as int),
        ensures
            match next {
                Some(c) => {
                    &&& next_node(
                        self.mesh_arcs(),
                        self.dag_arcs(),
                        visited@,
                        frontier as int,
                        root as int,
                    ) == Some(c as int)
                    &&& c < self.table().len()
                    &&& has_arc(self.mesh_arcs(), frontier as int, c as int)
                    &&& eligible(self.dag_arcs(), visited@, frontier as int, c as int)
                },
                None => next_node(
                    self.mesh_arcs(),
                    self.dag_arcs(),
                    visited@,
                    frontier as int,
                    root as int,
                ).is_none(),
            },
    {
        let ghost mesh = self.mesh_arcs();
        let ghost dag = self.dag_arcs();
        let ghost n = self.table().len() as int;
        let ghost nbrs = out_neighbors(mesh, frontier as int);
        let listed = graph_neighbors(&self.undirected, frontier);
        let mut best: Option<(u32, u64)> = None;
        let mut k: usize = 0;
        while k < listed.len()
            invariant
                k <= listed@.len(),
                listed@.len() == nbrs.len(),
                forall|j: int| 0 <= j < listed@.len() ==> (#[trigger] listed@[j]) as int == nbrs[j],
                nbrs == out_neighbors(mesh, frontier as int),
                mesh == self.mesh_arcs(),
                dag == self.dag_arcs(),
                n == self.table().len(),
                self.sized(),
                mesh_ok(mesh, n),
                frontier < n,
                root < n,
                reachable(mesh, frontier as int, root as int),
                match best {
                    Some((c, d)) => {
                        &&& pick(mesh, dag, visited@, frontier as int, root as int, nbrs, k as int)
                            == Some(c as int)
                        &&& d as nat == hops_to(mesh, c as int, root as int)
                        &&& c < n
                        &&& has_arc(mesh, frontier as int, c as int)
                        &&& eligible(dag, visited@, frontier as int, c as int)
                    },
                    None => pick(
                        mesh,
                        dag,
                        visited@,
                        frontier as int,
                        root as int,
                        nbrs,
                        k as int,
                    ).is_none(),
                },
            decreases listed@.len() - k,
        {
            let c = listed[k];
            proof {
                assert(nbrs[k as int] == c as int);
                lemma_out_neighbors(mesh, frontier as int, k as int);
                let i = choose|i: int|
                    0 <= i < mesh.len() && (#[trigger] mesh[i]).0 == frontier as int && mesh[i].1
                        == c as int;
                assert(0 <= mesh[i].1 < n);
                assert(has_arc(mesh, c as int, frontier as int)) by {
                    reveal(symmetric);
                }
                lemma_reach_prepend(mesh, c as int, frontier as int, root as int);
            }
            if !seen_contains(visited, c) && !graph_has_path(&self.graph, c, frontier) {
                match graph_hops(&self.undirected, c, root) {
                    Some(d) => {
                        match best {
                            Some((_, least)) => {
                                if d < least {
                                    best = Some((c, d));
                                }
                            },
                            None => {
                                best = Some((c, d));
                            },
                        }
                    },
                    None => {},
                }
            }
            k += 1;
        }
        match best {
            Some((c, _)) => Some(c),
            None => None,
        }
    }

    /// Grows the chain from `root` until no neighbour qualifies, and records
    /// `root` if the chain gained an arc.
    fn walk_from(&mut self, visited: &mut FxHashSet<u32>, root: u32)
        requires
            old(self).sized(),
            settled(
                old(self).mesh_arcs(),
                old(self).dag_arcs(),
                old(self).table().len() as int,
                old(visited)@,
                old(self).roots(),
            ),
            root < old(self).table().len(),
            old(visited)@.contains(root),
            !touched(old(self).dag_arcs(), root as int),
        ensures
            final(self).sized(),
            final(self).table() == old(self).table(),
            final(self).mesh_arcs() == old(self).mesh_arcs(),
            settled(
                final(self).mesh_arcs(),
                final(self).dag_arcs(),
                final(self).table().len() as int,
                final(visited)@,
                final(self).roots(),
            ),
            final(self).dag_arcs() == walk_on(
                old(self).mesh_arcs(),
                old(self).dag_arcs(),
                old(visited)@,
                root as int,
                root as int,
                old(self).table().len(),
            ).0,
            final(visited)@ == walk_on(
                old(self).mesh_arcs(),
                old(self).dag_arcs(),
                old(visited)@,
                root as int,
                root as int,
                old(self).table().len(),
            ).1,
    {
        let n = self.vertices.len();
        let ghost mesh = self.mesh_arcs();
        let ghost roots = self.roots();
        let ghost goal = walk_on(mesh, self.dag_arcs(), visited@, root as int, root as int, n as nat);
        proof {
            lemma_walk_start(mesh, self.dag_arcs(), n as int, visited@, roots, root as int);
        }
        let mut frontier: u32 = root;
        let mut fuel: usize = n;
        let mut open: bool = true;
        while open && fuel > 0
            invariant
                self.sized(),
                n == self.table().len(),
                self.table() == old(self).table(),
                self.mesh_arcs() == mesh,
                self.roots() == roots,
                walking(
                    mesh,
                    self.dag_arcs(),
                    n as int,
                    visited@,
                    roots,
                    root as int,
                    frontier as int,
                ),
                goal == walk_on(
                    mesh,
                    self.dag_arcs(),
                    visited@,
                    frontier as int,
                    root as int,
                    if open {
                        fuel as nat
                    } else {
                        0
                    },
                ),
            decreases
                    fuel + if open {
                        1nat
                    } else {
                        0nat
                    },
        {
            match self.pick_next(visited, frontier, root) {
                Some(next) => {
                    proof {
                        lemma_chain_short(self.dag_arcs(), n as int, root as int);
                        lemma_walk_step(
                            mesh,
                            self.dag_arcs(),
                            n as int,
                            visited@,
                            roots,
                            root as int,
                            frontier as int,
                            next as int,
                        );
                    }
                    graph_add_edge(&mut self.graph, frontier, next, DAG_WEIGHT);
                    seen_insert(visited, next);
                    frontier = next;
                    fuel = fuel - 1;
                },
                None => {
                    open = false;
                },
            }
        }
        proof {
            lemma_walk_end(
                mesh,
                self.dag_arcs(),
                n as int,
                visited@,
                roots,
                root as int,
                frontier as int,
            );
        }
        if frontier != root {
            seen_insert(&mut self.components, root);
        }
    }

    /// Orients the mesh graph: lays chains of arcs of weight minus one over
    /// it, root by root in index order, and records the root of every chain
    /// that has an arc.
    pub fn add_dag_edges(&mut self)
        requires
            old(self).wf(),
        ensures
            final(self).wf(),
            final(self).table() == old(self).table(),
            final(self).mesh_arcs() == old(self).mesh_arcs(),
            final(self).dag_arcs() == orient(
                old(self).mesh_arcs(),
                old(self).table().len() as int,
                old(self).dag_arcs(),
            ),
    {
        let n = self.vertices.len();
        let mut visited = self.touched_nodes();
        let ghost mesh = self.mesh_arcs();
        let ghost goal = orient(mesh, n as int, self.dag_arcs());
        proof {
            reveal(touched_visited);
        }
        let mut r: usize = 0;
        while r < n
            invariant
                r <= n,
                self.sized(),
                n == self.table().len(),
                self.table() == old(self).table(),
                self.mesh_arcs() == mesh,
                settled(mesh, self.dag_arcs(), n as int, visited@, self.roots()),
                goal == orient_on(mesh, n as int, r as int, self.dag_arcs(), visited@),
            decreases n - r,
        {
            if !seen_contains(&visited, r as u32) {
                proof {
                    reveal(touched_visited);
                    assert(!touched(self.dag_arcs(), r as int));
                }
                seen_insert(&mut visited, r as u32);
                self.walk_from(&mut visited, r as u32);
            }
            r += 1;
        }
    }
}

/// A skeleton of chains over `n` nodes, one of which no arc enters, has
/// fewer than `n` arcs.
proof fn lemma_chain_short(dag: Arcs, n: int, root: int)
    requires
        chains_ok(dag, n),
        0 <= root < n,
        !has_in_arc(dag, root),
    ensures
        dag.len() < n,
{
    reveal(single_entry);
    let targets = dag.map_values(|e: (int, int, int)| e.1);
    assert(targets.no_duplicates());
    targets.unique_seq_to_set();
    vstd::set_lib::lemma_int_range(0, n);
    let rest = vstd::set_lib::set_int_range(0, n).remove(root);
    assert(targets.to_set().subset_of(rest)) by {
        assert forall|x: int| targets.to_set().contains(x) implies rest.contains(x) by {
            let i = choose|i: int| 0 <= i < targets.len() && targets[i] == x;
            assert(0 <= dag[i].1 < n);
            lemma_arc_connects(dag, i);
        }
    }
    vstd::set_lib::lemma_len_subset(targets.to_set(), rest);
}

} // verus!
