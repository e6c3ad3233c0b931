//! The arena-backed graph that holds mesh connectivity.
//!
//! Nodes are numbered from zero in the order they were added; arcs are kept in
//! insertion order. Everything in this file is a thin layer over `petgraph`:
//! the contracts here are taken on trust from that crate's behaviour and are
//! the only unproved statements the rest of the library relies on for graphs.

use petgraph::algo::{astar, has_path_connecting};
use petgraph::graph::{Graph, NodeIndex};
use petgraph::Directed;
use vstd::prelude::*;

use crate::walks::{hop_distance, last_arc_index, out_neighbors, reachable};

verus! {

/// `petgraph::graph::Graph`, opaque to the verifier.
#[verifier::external_type_specification]
#[verifier::external_body]
#[verifier::reject_recursive_types(N)]
#[verifier::reject_recursive_types(E)]
#[verifier::reject_recursive_types(Ty)]
#[verifier::reject_recursive_types(Ix)]
pub struct ExGraph<N, E, Ty, Ix>(Graph<N, E, Ty, Ix>);

/// `petgraph::Directed`, the marker for directed edges.
#[verifier::external_type_specification]
#[verifier::external_body]
pub struct ExDirected(Directed);

/// The arcs of a graph as `(source, target, weight)`, oldest first.
pub uninterp spec fn graph_arcs(g: Graph<(), i64, Directed, u32>) -> Seq<(int, int, int)>;

/// The number of nodes of a graph.
pub uninterp spec fn graph_order(g: Graph<(), i64, Directed, u32>) -> nat;

/// `Graph::new`: a graph with no nodes and no arcs.
#[verifier::external_body]
pub(crate) fn graph_new() -> (g: Graph<(), i64, Directed, u32>)
    ensures
        graph_order(g) == 0,
        graph_arcs(g) == Seq::<(int, int, int)>::empty(),
{
    Graph::new()
}

/// `Graph::add_node`: appends one node and returns its index, which is the
/// previous node count. The arcs stay as they were. `petgraph` panics once
/// the index type is exhausted, which the precondition rules out.
#[verifier::external_body]
pub(crate) fn graph_add_node(g: &mut Graph<(), i64, Directed, u32>) -> (idx: u32)
    requires
        graph_order(*old(g)) < u32::MAX,
    ensures
        idx == graph_order(*old(g)),
        graph_order(*final(g)) == graph_order(*old(g)) + 1,
        graph_arcs(*final(g)) == graph_arcs(*old(g)),
{
    g.add_node(()).index() as u32
}

/// `Graph::add_edge`: appends the arc `a -> b` with the given weight, also
/// when an equal arc is already present. `petgraph` panics on a missing
/// endpoint or an exhausted edge index; both are ruled out.
#[verifier::external_body]
pub(crate) fn graph_add_edge(g: &mut Graph<(), i64, Directed, u32>, a: u32, b: u32, weight: i64)
    requires
        a < graph_order(*old(g)),
        b < graph_order(*old(g)),
        graph_arcs(*old(g)).len() < u32::MAX,
    ensures
        graph_order(*final(g)) == graph_order(*old(g)),
        graph_arcs(*final(g)) == graph_arcs(*old(g)).push((a as int, b as int, weight as int)),
{
    g.add_edge(NodeIndex::new(a as usize), NodeIndex::new(b as usize), weight);
}

/// `Graph::update_edge`: when an arc `a -> b` exists, the weight of the most
/// recently added one is replaced; otherwise the arc is appended.
#[verifier::external_body]
pub(crate) fn graph_update_edge(g: &mut Graph<(), i64, Directed, u32>, a: u32, b: u32, weight: i64)
    requires
        a < graph_order(*old(g)),
        b < graph_order(*old(g)),
        graph_arcs(*old(g)).len() < u32::MAX,
    ensures
        graph_order(*final(g)) == graph_order(*old(g)),
        graph_arcs(*final(g)) == (match last_arc_index(graph_arcs(*old(g)), a as int, b as int) {
            Some(i) => graph_arcs(*old(g)).update(i, (a as int, b as int, weight as int)),
            None => graph_arcs(*old(g)).push((a as int, b as int, weight as int)),
        }),
{
    g.update_edge(NodeIndex::new(a as usize), NodeIndex::new(b as usize), weight);
}

/// `Graph::neighbors` on a directed graph: the targets of the arcs that leave
/// `a`, the most recently added arc first.
#[verifier::external_body]
pub(crate) fn graph_neighbors(g: &Graph<(), i64, Directed, u32>, a: u32) -> (out: Vec<u32>)
    ensures
        out@.len() == out_neighbors(graph_arcs(*g), a as int).len(),
        forall|k: int|
            0 <= k < out@.len() ==> (#[trigger] out@[k]) as int == out_neighbors(
                graph_arcs(*g),
                a as int,
            )[k],
{
    g.neighbors(NodeIndex::new(a as usize)).map(|n| n.index() as u32).collect()
}

/// `Graph::raw_edges`: every arc with its endpoints and weight, oldest first.
#[verifier::external_body]
pub(crate) fn graph_edge_list(g: &Graph<(), i64, Directed, u32>) -> (out: Vec<(u32, u32, i64)>)
    ensures
        out@.len() == graph_arcs(*g).len(),
        forall|i: int|
            0 <= i < out@.len() ==> graph_arcs(*g)[i] == ((#[trigger] out@[i]).0 as int, out@[i].1
                as int, out@[i].2 as int),
{
    g.raw_edges()
        .iter()
        .map(|e| (e.source().index() as u32, e.target().index() as u32, e.weight))
        .collect()
}

/// `petgraph::algo::has_path_connecting`: whether a directed walk leads from
/// `from` to `to`; a node reaches itself.
#[verifier::external_body]
pub(crate) fn graph_has_path(g: &Graph<(), i64, Directed, u32>, from: u32, to: u32) -> (found:
    bool)
    requires
        from < graph_order(*g),
        to < graph_order(*g),
    ensures
        found == reachable(graph_arcs(*g), from as int, to as int),
{
    has_path_connecting(g, NodeIndex::new(from as usize), NodeIndex::new(to as usize), None)
}

/// Whether the search has arrived: `node` is the node looked for.
pub(crate) fn arrived(node: usize, goal: u32) -> (hit: bool)
    ensures
        hit == (node == goal),
{
    node == goal as usize
}

/// The cost of one arc in a count of arcs.
pub(crate) fn arc_cost() -> (cost: u64)
    ensures
        cost == 1,
{
    1
}

/// The estimate of the cost still to come that never overestimates.
pub(crate) fn no_estimate() -> (cost: u64)
    ensures
        cost == 0,
{
    0
}

/// `petgraph::algo::astar` with a cost of one for every arc and an estimate
/// of zero: the least number of arcs on a walk from `from` to `to`, or `None`
/// when there is no such walk.
#[verifier::external_body]
pub(crate) fn graph_hops(g: &Graph<(), i64, Directed, u32>, from: u32, to: u32) -> (hops: Option<
    u64,
>)
    ensures
        hops.is_some() == hop_distance(graph_arcs(*g), from as int, to as int).is_some(),
        hops.is_some() ==> hops.unwrap() as nat == hop_distance(
            graph_arcs(*g),
            from as int,
            to as int,
        ).unwrap(),
{
    let start = NodeIndex::new(from as usize);
    astar(g, start, |n| arrived(n.index(), to), |_| arc_cost(), |_| no_estimate()).map(|found| found.0)
}

} // verus!
