//! Read access to a skeleton: its edges, its roots, and the positions
//! along a path.

use vstd::prelude::*;

use crate::dag::VertexDag;
use crate::paths::root_list;
use crate::seen::seen_contains;
use crate::store::{graph_edge_list, graph_has_path, graph_hops, graph_neighbors};
use crate::walks::{hop_distance, out_neighbors, reachable, Arcs};

verus! {

/// The number of arcs among the first `k` that run from a node to itself or
/// to a node of higher index. In a mesh graph, where every side is stored
/// once in each direction, this counts the sides.
pub open spec fn forward_arcs(arcs: Arcs, k: int) -> nat
    decreases k,
{
    if k <= 0 {
        0
    } else if arcs[k - 1].0 <= arcs[k - 1].1 {
        forward_arcs(arcs, k - 1) + 1
    } else {
        forward_arcs(arcs, k - 1)
    }
}

/// The two ends of one step of a path, as positions.
#[derive(Clone, Copy, Debug, PartialEq, Eq)]
pub struct Segment {
    pub from: [u32; 3],
    pub to: [u32; 3],
}

/// The ends of the arcs, in order, weights left out.
pub open spec fn ends(arcs: Arcs) -> Seq<(int, int)> {
    Seq::new(arcs.len(), |i: int| (arcs[i].0, arcs[i].1))
}

/// Edge lists read as pairs of integers.
pub open spec fn pairs(v: Seq<(u32, u32)>) -> Seq<(int, int)> {
    Seq::new(v.len(), |i: int| (v[i].0 as int, v[i].1 as int))
}

/// Drops the weights of an edge list.
fn bare(edges: &Vec<(u32, u32, i64)>) -> (out: Vec<(u32, u32)>)
    ensures
        out@.len() == edges@.len(),
        forall|i: int|
            0 <= i < out@.len() ==> #[trigger] out@[i] == (edges@[i].0, edges@[i].1),
{
    let mut out: Vec<(u32, u32)> = Vec::new();
    let mut i: usize = 0;
    while i < edges.len()
        invariant
            i <= edges@.len(),
            out@.len() == i,
            forall|t: int| 0 <= t < i ==> #[trigger] out@[t] == (edges@[t].0, edges@[t].1),
        decreases edges@.len() - i,
    {
        out.push((edges[i].0, edges[i].1));
        i += 1;
    }
    out
}

impl VertexDag {
    /// The arcs of the skeleton as `(source, target)`, oldest first.
    pub fn dag_edges(&self) -> (out: Vec<(u32, u32)>)
        ensures
            pairs(out@) == ends(self.dag_arcs()),
    {
        let edges = graph_edge_list(&self.graph);
        let out = bare(&edges);
        assert(pairs(out@) =~= ends(self.dag_arcs()));
        out
    }

    /// The arcs of the mesh graph as `(source, target)`, oldest first. Every
    /// side of a face appears once in each direction.
    pub fn mesh_edges(&self) -> (out: Vec<(u32, u32)>)
        ensures
            pairs(out@) == ends(self.mesh_arcs()),
    {
        let edges = graph_edge_list(&self.undirected);
        let out = bare(&edges);
        assert(pairs(out@) =~= ends(self.mesh_arcs()));
        out
    }

    /// The number of sides of the mesh graph.
    pub fn edge_count(&self) -> (count: usize)
        ensures
            count == forward_arcs(self.mesh_arcs(), self.mesh_arcs().len() as int),
    {
        let edges = graph_edge_list(&self.undirected);
        let ghost arcs = self.mesh_arcs();
        let mut count: usize = 0;
        let mut i: usize = 0;
        while i < edges.len()
            invariant
                i <= edges@.len(),
                edges@.len() == arcs.len(),
                forall|t: int|
                    0 <= t < edges@.len() ==> arcs[t] == ((#[trigger] edges@[t]).0 as int, edges@[t].1
                        as int, edges@[t].2 as int),
                count == forward_arcs(arcs, i as int),
                count <= i,
            decreases edges@.len() - i,
        {
            if edges[i].0 <= edges[i].1 {
                count += 1;
            }
            i += 1;
        }
        count
    }

    /// Whether a walk along the skeleton leads from `from` to `to`. A node
    /// reaches itself; a node that the skeleton lacks reaches nothing and is
    /// not reached.
    pub fn leads_to(&self, from: u32, to: u32) -> (found: bool)
        requires
            self.wf(),
        ensures
            found == (from < self.table().len() && to < self.table().len() && reachable(
                self.dag_arcs(),
                from as int,
                to as int,
            )),
    {
        let n = self.vertices.len();
        if from as usize >= n || to as usize >= n {
            return false;
        }
        graph_has_path(&self.graph, from, to)
    }

    /// The least number of sides between `from` and `to` in the mesh graph,
    /// if they are connected at all.
    pub fn mesh_distance(&self, from: u32, to: u32) -> (hops: Option<u64>)
        ensures
            hops.is_some() == hop_distance(self.mesh_arcs(), from as int, to as int).is_some(),
            hops matches Some(d) ==> d as nat == hop_distance(
                self.mesh_arcs(),
                from as int,
                to as int,
            ).unwrap(),
    {
        graph_hops(&self.undirected, from, to)
    }

    /// The mesh neighbours of `a`, the most recently linked first.
    pub fn mesh_neighbors(&self, a: u32) -> (out: Vec<u32>)
        ensures
            out@.len() == out_neighbors(self.mesh_arcs(), a as int).len(),
            forall|k: int|
                0 <= k < out@.len() ==> (#[trigger] out@[k]) as int == out_neighbors(
                    self.mesh_arcs(),
                    a as int,
                )[k],
    {
        graph_neighbors(&self.undirected, a)
    }

    /// The recorded roots in ascending order.
    pub fn components(&self) -> (out: Vec<u32>)
        requires
            self.wf(),
        ensures
            out@ == root_list(self.roots(), self.table().len() as int),
    {
        let n = self.vertices.len();
        let mut out: Vec<u32> = Vec::new();
        let mut r: usize = 0;
        while r < n
            invariant
                r <= n,
                n == self.table().len(),
                n <= u32::MAX,
                out@ == root_list(self.roots(), r as int),
            decreases n - r,
        {
            if seen_contains(&self.components, r as u32) {
                out.push(r as u32);
            }
            r += 1;
        }
        out
    }

    /// The positions at the two ends of every step of `path`, step by step;
    /// `None` when `path` names a node that the skeleton lacks. A path of
    /// fewer than two nodes has no steps.
    pub fn path_segments(&self, path: &Vec<u32>) -> (out: Option<Vec<Segment>>)
        ensures
            out.is_some() <==> forall|i: int|
                0 <= i < path@.len() ==> (#[trigger] path@[i]) < self.table().len(),
            out matches Some(steps) ==> {
                &&& steps@.len() == if path@.len() == 0 {
                    0
                } else {
                    path@.len() - 1
                }
                &&& forall|i: int|
                    0 <= i < steps@.len() ==> #[trigger] steps@[i] == (Segment {
                        from: self.table()[path@[i] as int].position,
                        to: self.table()[path@[i + 1] as int].position,
                    })
            },
    {
        let n = self.vertices.len();
        let mut steps: Vec<Segment> = Vec::new();
        if path.len() == 0 {
            return Some(steps);
        }
        if path[0] as usize >= n {
            return None;
        }
        let mut i: usize = 1;
        while i < path.len()
            invariant
                1 <= i <= path@.len(),
                n == self.table().len(),
                forall|t: int| 0 <= t < i ==> (#[trigger] path@[t]) < n,
                steps@.len() == i - 1,
                forall|t: int|
                    0 <= t < steps@.len() ==> #[trigger] steps@[t] == (Segment {
                        from: self.table()[path@[t] as int].position,
                        to: self.table()[path@[t + 1] as int].position,
                    }),
            decreases path@.len() - i,
        {
            if path[i] as usize >= n {
                return None;
            }
            steps.push(
                Segment {
                    from: self.vertices[path[i - 1] as usize].position,
                    to: self.vertices[path[i] as usize].position,
                },
            );
            i += 1;
        }
        Some(steps)
    }
}

} // verus!
