//! The vertex skeleton: a mesh graph, the directed acyclic graph laid over
//! it, the vertex table both are indexed by, and the roots of the skeleton.

use petgraph::graph::Graph;
use petgraph::Directed;
use rustc_hash::FxHashSet;
use vstd::prelude::*;

use crate::mesh::ObjVertex;
use crate::seen::seen_new;
use crate::store::{graph_add_node, graph_arcs, graph_new, graph_order};
use crate::walks::{
    acyclic, arcs_within, has_arc, has_in_arc, has_out_arc, reachable, touched, uniform_weight,
    Arcs,
};

verus! {

/// The weight of every arc of the mesh graph.
pub const MESH_WEIGHT: i64 = 1;

/// The weight of every arc of the skeleton.
pub const DAG_WEIGHT: i64 = -1;

/// No two arcs join the same ordered pair of nodes.
#[verifier::opaque]
pub open spec fn no_parallel(arcs: Arcs) -> bool {
    forall|i: int, j: int|
        0 <= i < arcs.len() && 0 <= j < arcs.len() && (#[trigger] arcs[i]).0 == (#[trigger] arcs[j]).0
            && arcs[i].1 == arcs[j].1 ==> i == j
}

/// Every connection exists in both directions.
#[verifier::opaque]
pub open spec fn symmetric(arcs: Arcs) -> bool {
    forall|a: int, b: int| has_arc(arcs, a, b) ==> has_arc(arcs, b, a)
}

/// A mesh graph over `n` nodes: unit weights, each side present once in
/// each direction.
pub open spec fn mesh_ok(mesh: Arcs, n: int) -> bool {
    &&& arcs_within(mesh, n)
    &&& uniform_weight(mesh, MESH_WEIGHT as int)
    &&& symmetric(mesh)
    &&& no_parallel(mesh)
}

/// No node has two outgoing arcs.
#[verifier::opaque]
pub open spec fn single_exit(arcs: Arcs) -> bool {
    forall|i: int, j: int|
        0 <= i < arcs.len() && 0 <= j < arcs.len() && (#[trigger] arcs[i]).0 == (#[trigger] arcs[j]).0
            ==> i == j
}

/// No node has two incoming arcs.
#[verifier::opaque]
pub open spec fn single_entry(arcs: Arcs) -> bool {
    forall|i: int, j: int|
        0 <= i < arcs.len() && 0 <= j < arcs.len() && (#[trigger] arcs[i]).1 == (#[trigger] arcs[j]).1
            ==> i == j
}

/// A skeleton over `n` nodes: acyclic chains of arcs of weight minus one.
pub open spec fn chains_ok(dag: Arcs, n: int) -> bool {
    &&& arcs_within(dag, n)
    &&& uniform_weight(dag, DAG_WEIGHT as int)
    &&& acyclic(dag)
    &&& single_exit(dag)
    &&& single_entry(dag)
}

/// Every arc of `dag` runs along a connection of `mesh`.
#[verifier::opaque]
pub open spec fn embedded(dag: Arcs, mesh: Arcs) -> bool {
    forall|i: int| 0 <= i < dag.len() ==> has_arc(mesh, (#[trigger] dag[i]).0, dag[i].1)
}

/// A root starts a chain: an arc leaves it and none enters it.
pub open spec fn is_root(dag: Arcs, r: int) -> bool {
    has_out_arc(dag, r) && !has_in_arc(dag, r)
}

/// `roots` holds exactly the roots of `dag`.
pub open spec fn roots_are(roots: Set<u32>, dag: Arcs) -> bool {
    forall|r: u32| roots.contains(r) <==> is_root(dag, r as int)
}

/// Every node on an arc can be reached from one of `roots`.
#[verifier::opaque]
pub open spec fn covered(dag: Arcs, roots: Set<u32>) -> bool {
    forall|v: int| #[trigger]
        touched(dag, v) ==> exists|r: u32| roots.contains(r) && #[trigger] reachable(dag, r as int, v)
}

/// The skeleton of a mesh.
pub struct VertexDag {
    pub(crate) graph: Graph<(), i64, Directed, u32>,
    pub(crate) undirected: Graph<(), i64, Directed, u32>,
    pub(crate) vertices: Vec<ObjVertex>,
    pub(crate) components: FxHashSet<u32>,
}

impl VertexDag {
    /// The arcs of the skeleton, oldest first.
    pub open(crate) spec fn dag_arcs(&self) -> Arcs {
        graph_arcs(self.graph)
    }

    /// The arcs of the mesh graph, oldest first.
    pub open(crate) spec fn mesh_arcs(&self) -> Arcs {
        graph_arcs(self.undirected)
    }

    /// The vertex table.
    pub open(crate) spec fn table(&self) -> Seq<ObjVertex> {
        self.vertices@
    }

    /// The recorded roots.
    pub open(crate) spec fn roots(&self) -> Set<u32> {
        self.components@
    }

    /// Both graphs have one node per table entry.
    pub open(crate) spec fn sized(&self) -> bool {
        &&& graph_order(self.graph) == self.vertices@.len()
        &&& graph_order(self.undirected) == self.vertices@.len()
        &&& self.vertices@.len() <= u32::MAX
    }

    /// Well-formedness: what every skeleton handed out by this library obeys.
    pub open spec fn wf(&self) -> bool {
        &&& self.sized()
        &&& mesh_ok(self.mesh_arcs(), self.table().len() as int)
        &&& chains_ok(self.dag_arcs(), self.table().len() as int)
        &&& embedded(self.dag_arcs(), self.mesh_arcs())
        &&& roots_are(self.roots(), self.dag_arcs())
        &&& covered(self.dag_arcs(), self.roots())
    }

    /// A skeleton over the given vertices with no connections yet.
    pub fn new(vertices: Vec<ObjVertex>) -> (dag: VertexDag)
        requires
            vertices@.len() <= u32::MAX,
        ensures
            dag.wf(),
            dag.table() == vertices@,
            dag.mesh_arcs() == Seq::<(int, int, int)>::empty(),
            dag.dag_arcs() == Seq::<(int, int, int)>::empty(),
            dag.roots() == Set::<u32>::empty(),
    {
        proof {
            reveal(no_parallel);
            reveal(single_exit);
            reveal(single_entry);
            reveal(symmetric);
            reveal(embedded);
            reveal(covered);
            reveal(acyclic);
        }
        let mut graph = graph_new();
        let mut undirected = graph_new();
        let mut i: usize = 0;
        while i < vertices.len()
            invariant
                i <= vertices@.len() <= u32::MAX,
                graph_order(graph) == i,
                graph_order(undirected) == i,
                graph_arcs(graph) == Seq::<(int, int, int)>::empty(),
                graph_arcs(undirected) == Seq::<(int, int, int)>::empty(),
            decreases vertices@.len() - i,
        {
            graph_add_node(&mut graph);
            graph_add_node(&mut undirected);
            i += 1;
        }
        VertexDag { graph, undirected, vertices, components: seen_new() }
    }

    /// The number of vertices.
    pub fn vertex_count(&self) -> (n: usize)
        ensures
            n == self.table().len(),
    {
        self.vertices.len()
    }

    /// The vertex table in index order.
    pub fn vertices(&self) -> (out: &Vec<ObjVertex>)
        ensures
            out@ == self.table(),
    {
        &self.vertices
    }
}

} // verus!
