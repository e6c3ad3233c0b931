//! From a loaded mesh to its vertex table and mesh graph.
//!
//! Each vertex is filled from the first face corner that names it: the
//! position comes from the position array, the normal and the texture
//! coordinate from the indices that this corner carries, and an attribute the
//! corner does not carry is zero. A per-vertex reading of the normal array is
//! never used. A vertex that no face names stays blank.

use petgraph::graph::Graph;
use petgraph::Directed;
use vstd::prelude::*;

use crate::dag::{embedded, mesh_ok, no_parallel, symmetric, VertexDag, MESH_WEIGHT};
use crate::mesh::{blank_vertex, corner_list, FaceCorner, LoadError, MeshData, ObjVertex};
use crate::orient::orient;
use crate::seen::{seen_insert, seen_new};
use crate::store::{graph_arcs, graph_order, graph_update_edge};
use crate::walks::{arcs_within, has_arc, last_arc_index, uniform_weight, Arcs};

verus! {

/// The first corner of `cs` that names position `v`.
pub open spec fn first_corner(cs: Seq<FaceCorner>, v: int) -> Option<FaceCorner>
    decreases cs.len(),
{
    if cs.len() == 0 {
        None
    } else {
        match first_corner(cs.drop_last(), v) {
            Some(c) => Some(c),
            None => if cs.last().position == v {
                Some(cs.last())
            } else {
                None
            },
        }
    }
}

/// The vertex that corner `c` describes.
pub open spec fn filled_vertex(data: &MeshData, c: FaceCorner) -> ObjVertex {
    ObjVertex {
        position: data.positions@[c.position as int],
        normal: match c.normal {
            Some(k) => data.normals@[k as int],
            None => [0u32, 0u32, 0u32],
        },
        texture: match c.texture {
            Some(k) => data.textures@[k as int],
            None => [0u32, 0u32],
        },
    }
}

/// What the table holds for position `v` once the corners `cs` are read.
pub open spec fn slot(data: &MeshData, cs: Seq<FaceCorner>, v: int) -> ObjVertex {
    match first_corner(cs, v) {
        Some(c) => filled_vertex(data, c),
        None => blank_vertex(),
    }
}

/// Every corner of the mesh, face by face.
pub open spec fn all_corners(data: &MeshData) -> Seq<FaceCorner> {
    corner_list(data.face_seqs(), data.faces@.len() as int)
}

/// The vertex table of a mesh: one entry per position.
pub open spec fn vertex_table(data: &MeshData) -> Seq<ObjVertex> {
    Seq::new(data.positions@.len(), |v: int| slot(data, all_corners(data), v))
}

/// The corner names a position outside the position array.
pub open spec fn bad_position(data: &MeshData, c: FaceCorner) -> bool {
    c.position >= data.positions@.len()
}

/// The corner names a texture coordinate outside the texture array.
pub open spec fn bad_texture(data: &MeshData, c: FaceCorner) -> bool {
    c.texture matches Some(k) && k >= data.textures@.len()
}

/// The corner names a normal outside the normal array.
pub open spec fn bad_normal(data: &MeshData, c: FaceCorner) -> bool {
    c.normal matches Some(k) && k >= data.normals@.len()
}

/// Some corner of `cs` has a position out of range.
pub open spec fn any_bad_position(data: &MeshData, cs: Seq<FaceCorner>) -> bool {
    exists|i: int| 0 <= i < cs.len() && bad_position(data, #[trigger] cs[i])
}

/// Some corner of `cs` has a texture index out of range.
pub open spec fn any_bad_texture(data: &MeshData, cs: Seq<FaceCorner>) -> bool {
    exists|i: int| 0 <= i < cs.len() && bad_texture(data, #[trigger] cs[i])
}

/// Some corner of `cs` has a normal index out of range.
pub open spec fn any_bad_normal(data: &MeshData, cs: Seq<FaceCorner>) -> bool {
    exists|i: int| 0 <= i < cs.len() && bad_normal(data, #[trigger] cs[i])
}

/// Why a mesh is refused, if it is. A mesh may have at most `u32::MAX`
/// positions, and its faces at most `u32::MAX / 2` sides in all, since every
/// side may become two arcs. Where several faults are present, the first of
/// this list is reported.
pub open spec fn load_fault(data: &MeshData) -> Option<LoadError> {
    let cs = all_corners(data);
    if data.positions@.len() > u32::MAX {
        Some(LoadError::TooManyVertices)
    } else if any_bad_position(data, cs) {
        Some(LoadError::PositionOutOfRange)
    } else if any_bad_texture(data, cs) {
        Some(LoadError::TextureOutOfRange)
    } else if any_bad_normal(data, cs) {
        Some(LoadError::NormalOutOfRange)
    } else if 2 * cs.len() > u32::MAX {
        Some(LoadError::TooManyEdges)
    } else {
        None
    }
}

/// `arcs` with the connection `a -> b` present: added when it was missing.
pub open spec fn upsert(arcs: Arcs, a: int, b: int) -> Arcs {
    if has_arc(arcs, a, b) {
        arcs
    } else {
        arcs.push((a, b, MESH_WEIGHT as int))
    }
}

/// `arcs` with `a` and `b` connected in both directions.
pub open spec fn link(arcs: Arcs, a: int, b: int) -> Arcs {
    upsert(upsert(arcs, a, b), b, a)
}

/// The position at the far end of side `i` of `face`: that of the next
/// corner, and of the first corner for the last side.
pub open spec fn side_end(face: Seq<FaceCorner>, i: int) -> int {
    if i + 1 == face.len() {
        face[0].position as int
    } else {
        face[i + 1].position as int
    }
}

/// `arcs` after the first `sides` sides of `face` were linked. Side `i` joins
/// corner `i` to the next corner, the last one to the first.
pub open spec fn face_links(arcs: Arcs, face: Seq<FaceCorner>, sides: int) -> Arcs
    decreases sides,
{
    if sides <= 0 {
        arcs
    } else {
        link(
            face_links(arcs, face, sides - 1),
            face[sides - 1].position as int,
            side_end(face, sides - 1),
        )
    }
}

/// The mesh graph of the first `upto` faces.
pub open spec fn mesh_links(faces: Seq<Seq<FaceCorner>>, upto: int) -> Arcs
    decreases upto,
{
    if upto <= 0 {
        Seq::empty()
    } else {
        face_links(mesh_links(faces, upto - 1), faces[upto - 1], faces[upto - 1].len() as int)
    }
}

/// The mesh graph of a mesh.
pub open spec fn mesh_graph(data: &MeshData) -> Arcs {
    mesh_links(data.face_seqs(), data.faces@.len() as int)
}

/// `last_arc_index` finds an arc exactly when one exists.
pub proof fn lemma_last_arc_index(arcs: Arcs, a: int, b: int)
    ensures
        match last_arc_index(arcs, a, b) {
            Some(i) => 0 <= i < arcs.len() && arcs[i].0 == a && arcs[i].1 == b,
            None => !has_arc(arcs, a, b),
        },
    decreases arcs.len(),
{
    if arcs.len() > 0 && !(arcs.last().0 == a && arcs.last().1 == b) {
        let shorter = arcs.drop_last();
        lemma_last_arc_index(shorter, a, b);
        match last_arc_index(shorter, a, b) {
            Some(i) => {
                assert(arcs[i] == shorter[i]);
            },
            None => {
                if has_arc(arcs, a, b) {
                    let i = choose|i: int|
                        0 <= i < arcs.len() && (#[trigger] arcs[i]).0 == a && arcs[i].1 == b;
                    assert(shorter[i] == arcs[i]);
                }
            },
        }
    }
}

/// What `upsert` changes: one connection at most, and nothing of the shape
/// of a mesh graph.
pub proof fn lemma_upsert(arcs: Arcs, n: int, a: int, b: int)
    requires
        0 <= a < n,
        0 <= b < n,
    ensures
        forall|x: int, y: int|
            has_arc(upsert(arcs, a, b), x, y) <==> (has_arc(arcs, x, y) || (x == a && y == b)),
        arcs_within(arcs, n) ==> arcs_within(upsert(arcs, a, b), n),
        uniform_weight(arcs, MESH_WEIGHT as int) ==> uniform_weight(
            upsert(arcs, a, b),
            MESH_WEIGHT as int,
        ),
        no_parallel(arcs) ==> no_parallel(upsert(arcs, a, b)),
        arcs.len() <= upsert(arcs, a, b).len() <= arcs.len() + 1,
{
    reveal(no_parallel);
    let next = upsert(arcs, a, b);
    assert forall|x: int, y: int|
        has_arc(next, x, y) <==> (has_arc(arcs, x, y) || (x == a && y == b)) by {
        if !has_arc(arcs, a, b) {
            crate::walks::lemma_has_arc_push(arcs, (a, b, MESH_WEIGHT as int), x, y);
        }
    }
    if no_parallel(arcs) && !has_arc(arcs, a, b) {
        assert forall|i: int, j: int|
            0 <= i < next.len() && 0 <= j < next.len() && (#[trigger] next[i]).0 == (
            #[trigger] next[j]).0 && next[i].1 == next[j].1 implies i == j by {
            if i < arcs.len() && j < arcs.len() {
                assert(arcs[i] == next[i] && arcs[j] == next[j]);
            } else if i < arcs.len() {
                assert(arcs[i] == next[i]);
            } else if j < arcs.len() {
                assert(arcs[j] == next[j]);
            }
        }
    }
}

/// Linking keeps a mesh graph a mesh graph.
pub proof fn lemma_link(arcs: Arcs, n: int, a: int, b: int)
    requires
        0 <= a < n,
        0 <= b < n,
        mesh_ok(arcs, n),
    ensures
        mesh_ok(link(arcs, a, b), n),
        arcs.len() <= link(arcs, a, b).len() <= arcs.len() + 2,
        forall|x: int, y: int|
            has_arc(link(arcs, a, b), x, y) <==> (has_arc(arcs, x, y) || (x == a && y == b) || (x
                == b && y == a)),
{
    reveal(symmetric);
    let mid = upsert(arcs, a, b);
    let both = link(arcs, a, b);
    lemma_upsert(arcs, n, a, b);
    lemma_upsert(mid, n, b, a);
    assert forall|x: int, y: int| has_arc(both, x, y) implies has_arc(both, y, x) by {
        if has_arc(arcs, x, y) {
            assert(has_arc(arcs, y, x));
        }
    }
}

/// The corner count grows with the number of faces.
pub proof fn lemma_corner_list_grows(faces: Seq<Seq<FaceCorner>>, a: int, b: int)
    requires
        a <= b,
    ensures
        corner_list(faces, a).len() <= corner_list(faces, b).len(),
    decreases b - a,
{
    if a < b {
        lemma_corner_list_grows(faces, a, b - 1);
    }
}

/// Side `i` of `face` joins the positions `a` and `b`, in either order.
pub open spec fn side_joins(face: Seq<FaceCorner>, i: int, a: int, b: int) -> bool {
    let x = face[i].position as int;
    let y = side_end(face, i);
    (a == x && b == y) || (a == y && b == x)
}

/// One of the first `sides` sides of `face` joins `a` and `b`.
pub open spec fn adjacent_in_face(face: Seq<FaceCorner>, sides: int, a: int, b: int) -> bool {
    exists|i: int| 0 <= i < sides && #[trigger] side_joins(face, i, a, b)
}

/// A side of one of the first `upto` faces joins `a` and `b`.
pub open spec fn adjacent(faces: Seq<Seq<FaceCorner>>, upto: int, a: int, b: int) -> bool {
    exists|f: int, i: int|
        0 <= f < upto && 0 <= i < faces[f].len() && #[trigger] side_joins(faces[f], i, a, b)
}

/// Every corner of `face` names a position below `n`.
pub open spec fn face_within(face: Seq<FaceCorner>, n: int) -> bool {
    forall|i: int| 0 <= i < face.len() ==> (#[trigger] face[i]).position < n
}

/// Linking the sides of a face connects what the sides join, and nothing
/// else.
pub proof fn lemma_face_links_connect(
    arcs: Arcs,
    face: Seq<FaceCorner>,
    sides: int,
    n: int,
    a: int,
    b: int,
)
    requires
        0 <= sides <= face.len(),
        face_within(face, n),
        mesh_ok(arcs, n),
    ensures
        mesh_ok(face_links(arcs, face, sides), n),
        has_arc(face_links(arcs, face, sides), a, b) <==> (has_arc(arcs, a, b)
            || adjacent_in_face(face, sides, a, b)),
    decreases sides,
{
    if sides > 0 {
        lemma_face_links_connect(arcs, face, sides - 1, n, a, b);
        let before = face_links(arcs, face, sides - 1);
        let x = face[sides - 1].position as int;
        let y = side_end(face, sides - 1);
        assert(0 <= y < n) by {
            if sides == face.len() {
                assert(face[0].position < n);
            } else {
                assert(face[sides].position < n);
            }
        }
        lemma_link(before, n, x, y);
        if adjacent_in_face(face, sides - 1, a, b) {
            let i = choose|i: int| 0 <= i < sides - 1 && #[trigger] side_joins(face, i, a, b);
            assert(0 <= i < sides && side_joins(face, i, a, b));
        }
        if side_joins(face, sides - 1, a, b) {
            assert(adjacent_in_face(face, sides, a, b));
        }
        if adjacent_in_face(face, sides, a, b) {
            let i = choose|i: int| 0 <= i < sides && #[trigger] side_joins(face, i, a, b);
            if i < sides - 1 {
                assert(adjacent_in_face(face, sides - 1, a, b));
            }
        }
    }
}

/// The mesh graph connects two positions exactly when a side of a face
/// joins them; it is symmetric and holds no connection twice.
pub proof fn lemma_mesh_links_connect(
    faces: Seq<Seq<FaceCorner>>,
    upto: int,
    n: int,
    a: int,
    b: int,
)
    requires
        0 <= upto <= faces.len(),
        forall|f: int| 0 <= f < upto ==> face_within(#[trigger] faces[f], n),
    ensures
        mesh_ok(mesh_links(faces, upto), n),
        has_arc(mesh_links(faces, upto), a, b) <==> adjacent(faces, upto, a, b),
    decreases upto,
{
    if upto <= 0 {
        reveal(no_parallel);
        reveal(symmetric);
    } else {
        lemma_mesh_links_connect(faces, upto - 1, n, a, b);
        let before = mesh_links(faces, upto - 1);
        let face = faces[upto - 1];
        lemma_face_links_connect(before, face, face.len() as int, n, a, b);
        if adjacent(faces, upto - 1, a, b) {
            let (f, i) = choose|f: int, i: int|
                0 <= f < upto - 1 && 0 <= i < faces[f].len() && #[trigger] side_joins(
                    faces[f],
                    i,
                    a,
                    b,
                );
            assert(0 <= f < upto && side_joins(faces[f], i, a, b));
        }
        if adjacent_in_face(face, face.len() as int, a, b) {
            let i = choose|i: int| 0 <= i < face.len() && #[trigger] side_joins(face, i, a, b);
            assert(0 <= upto - 1 < upto && side_joins(faces[upto - 1], i, a, b));
        }
        if adjacent(faces, upto, a, b) {
            let (f, i) = choose|f: int, i: int|
                0 <= f < upto && 0 <= i < faces[f].len() && #[trigger] side_joins(
                    faces[f],
                    i,
                    a,
                    b,
                );
            if f < upto - 1 {
                assert(adjacent(faces, upto - 1, a, b));
            } else {
                assert(adjacent_in_face(face, face.len() as int, a, b));
            }
        }
    }
}

/// In the mesh graph of a mesh without fault two positions are connected
/// exactly when a side of some face joins them.
pub proof fn lemma_mesh_graph_connects(data: &MeshData, a: int, b: int)
    requires
        load_fault(data).is_none(),
    ensures
        mesh_ok(mesh_graph(data), data.positions@.len() as int),
        has_arc(mesh_graph(data), a, b) <==> adjacent(
            data.face_seqs(),
            data.faces@.len() as int,
            a,
            b,
        ),
{
    let faces = data.face_seqs();
    let n = data.positions@.len() as int;
    assert forall|f: int| 0 <= f < faces.len() implies face_within(#[trigger] faces[f], n) by {
        assert forall|i: int| 0 <= i < faces[f].len() implies (#[trigger] faces[f][i]).position
            < n by {
            lemma_corners_in_range(data, f, i);
        }
    }
    lemma_mesh_links_connect(faces, faces.len() as int, n, a, b);
}

/// Connects `a -> b` with unit weight unless the connection exists.
fn join(g: &mut Graph<(), i64, Directed, u32>, a: u32, b: u32)
    requires
        a < graph_order(*old(g)),
        b < graph_order(*old(g)),
        graph_arcs(*old(g)).len() < u32::MAX,
        uniform_weight(graph_arcs(*old(g)), MESH_WEIGHT as int),
    ensures
        graph_order(*final(g)) == graph_order(*old(g)),
        graph_arcs(*final(g)) == upsert(graph_arcs(*old(g)), a as int, b as int),
{
    proof {
        lemma_last_arc_index(graph_arcs(*g), a as int, b as int);
    }
    let ghost before = graph_arcs(*g);
    graph_update_edge(g, a, b, MESH_WEIGHT);
    proof {
        match last_arc_index(before, a as int, b as int) {
            Some(i) => {
                assert(before[i] == (a as int, b as int, MESH_WEIGHT as int));
                assert(before.update(i, (a as int, b as int, MESH_WEIGHT as int)) =~= before);
            },
            None => {},
        }
    }
}

/// The faults of a corner list grown by one corner.
proof fn lemma_faults_push(data: &MeshData, cs: Seq<FaceCorner>, c: FaceCorner)
    ensures
        any_bad_position(data, cs.push(c)) <==> (any_bad_position(data, cs) || bad_position(
            data,
            c,
        )),
        any_bad_texture(data, cs.push(c)) <==> (any_bad_texture(data, cs) || bad_texture(data, c)),
        any_bad_normal(data, cs.push(c)) <==> (any_bad_normal(data, cs) || bad_normal(data, c)),
{
    let more = cs.push(c);
    assert(more[cs.len() as int] == c);
    assert forall|i: int| 0 <= i < cs.len() implies #[trigger] more[i] == cs[i] by {}
    if any_bad_position(data, cs) {
        let i = choose|i: int| 0 <= i < cs.len() && bad_position(data, #[trigger] cs[i]);
        assert(bad_position(data, more[i]));
    }
    if any_bad_texture(data, cs) {
        let i = choose|i: int| 0 <= i < cs.len() && bad_texture(data, #[trigger] cs[i]);
        assert(bad_texture(data, more[i]));
    }
    if any_bad_normal(data, cs) {
        let i = choose|i: int| 0 <= i < cs.len() && bad_normal(data, #[trigger] cs[i]);
        assert(bad_normal(data, more[i]));
    }
    if any_bad_position(data, more) {
        let i = choose|i: int| 0 <= i < more.len() && bad_position(data, #[trigger] more[i]);
        if i < cs.len() {
            assert(bad_position(data, cs[i]));
        }
    }
    if any_bad_texture(data, more) {
        let i = choose|i: int| 0 <= i < more.len() && bad_texture(data, #[trigger] more[i]);
        if i < cs.len() {
            assert(bad_texture(data, cs[i]));
        }
    }
    if any_bad_normal(data, more) {
        let i = choose|i: int| 0 <= i < more.len() && bad_normal(data, #[trigger] more[i]);
        if i < cs.len() {
            assert(bad_normal(data, cs[i]));
        }
    }
}

/// Every corner of every face below `upto` occurs in the corner list.
proof fn lemma_corner_listed(faces: Seq<Seq<FaceCorner>>, upto: int, f: int, c: int)
    requires
        0 <= f < upto <= faces.len(),
        0 <= c < faces[f].len(),
    ensures
        exists|k: int|
            0 <= k < corner_list(faces, upto).len() && #[trigger] corner_list(faces, upto)[k]
                == faces[f][c],
    decreases upto,
{
    let head = corner_list(faces, upto - 1);
    let whole = corner_list(faces, upto);
    if f == upto - 1 {
        assert(whole[head.len() + c] == faces[f][c]);
    } else {
        lemma_corner_listed(faces, upto - 1, f, c);
        let k = choose|k: int| 0 <= k < head.len() && #[trigger] head[k] == faces[f][c];
        assert(whole[k] == head[k]);
    }
}

/// In a mesh without fault every index of every corner is in range.
pub proof fn lemma_corners_in_range(data: &MeshData, f: int, c: int)
    requires
        load_fault(data).is_none(),
        0 <= f < data.faces@.len(),
        0 <= c < data.faces@[f]@.len(),
    ensures
        !bad_position(data, data.faces@[f]@[c]),
        !bad_texture(data, data.faces@[f]@[c]),
        !bad_normal(data, data.faces@[f]@[c]),
{
    let faces = data.face_seqs();
    lemma_corner_listed(faces, faces.len() as int, f, c);
}

/// Looks for the fault that `load_fault` describes.
fn inspect(data: &MeshData) -> (fault: Option<LoadError>)
    ensures
        fault == load_fault(data),
{
    if data.positions.len() > u32::MAX as usize {
        return Some(LoadError::TooManyVertices);
    }
    let ghost faces = data.face_seqs();
    let mut bad_p: bool = false;
    let mut bad_t: bool = false;
    let mut bad_n: bool = false;
    let mut over: bool = false;
    let mut sides: usize = 0;
    let mut f: usize = 0;
    while f < data.faces.len()
        invariant
            f <= data.faces@.len(),
            faces == data.face_seqs(),
            bad_p == any_bad_position(data, corner_list(faces, f as int)),
            bad_t == any_bad_texture(data, corner_list(faces, f as int)),
            bad_n == any_bad_normal(data, corner_list(faces, f as int)),
            !over ==> sides == corner_list(faces, f as int).len() && 2 * sides <= u32::MAX,
            over ==> 2 * corner_list(faces, f as int).len() > u32::MAX,
        decreases data.faces@.len() - f,
    {
        let face = &data.faces[f];
        let mut c: usize = 0;
        while c < face.len()
            invariant
                c <= face@.len(),
                f < data.faces@.len(),
                faces == data.face_seqs(),
                face@ == faces[f as int],
                bad_p == any_bad_position(
                    data,
                    corner_list(faces, f as int) + face@.subrange(0, c as int),
                ),
                bad_t == any_bad_texture(
                    data,
                    corner_list(faces, f as int) + face@.subrange(0, c as int),
                ),
                bad_n == any_bad_normal(
                    data,
                    corner_list(faces, f as int) + face@.subrange(0, c as int),
                ),
                !over ==> sides == corner_list(faces, f as int).len() + c && 2 * sides
                    <= u32::MAX,
                over ==> 2 * (corner_list(faces, f as int).len() + c) > u32::MAX,
            decreases face@.len() - c,
        {
            let corner = face[c];
            proof {
                let done = corner_list(faces, f as int) + face@.subrange(0, c as int);
                lemma_faults_push(data, done, corner);
                assert(corner_list(faces, f as int) + face@.subrange(0, c + 1) =~= done.push(
                    corner,
                ));
            }
            if corner.position >= data.positions.len() {
                bad_p = true;
            }
            match corner.texture {
                Some(k) => {
                    if k >= data.textures.len() {
                        bad_t = true;
                    }
                },
                None => {},
            }
            match corner.normal {
                Some(k) => {
                    if k >= data.normals.len() {
                        bad_n = true;
                    }
                },
                None => {},
            }
            if !over {
                if sides >= 2147483647 {
                    over = true;
                } else {
                    sides += 1;
                }
            }
            c += 1;
        }
        proof {
            assert(face@.subrange(0, c as int) =~= face@);
        }
        f += 1;
    }
    if bad_p {
        Some(LoadError::PositionOutOfRange)
    } else if bad_t {
        Some(LoadError::TextureOutOfRange)
    } else if bad_n {
        Some(LoadError::NormalOutOfRange)
    } else if over {
        Some(LoadError::TooManyEdges)
    } else {
        None
    }
}

/// The vertex that `corner` describes.
fn fill(data: &MeshData, corner: FaceCorner) -> (v: ObjVertex)
    requires
        !bad_position(data, corner),
        !bad_texture(data, corner),
        !bad_normal(data, corner),
    ensures
        v == filled_vertex(data, corner),
{
    let normal: [u32; 3] = match corner.normal {
        Some(k) => data.normals[k],
        None => [0, 0, 0],
    };
    let texture: [u32; 2] = match corner.texture {
        Some(k) => data.textures[k],
        None => [0, 0],
    };
    ObjVertex { position: data.positions[corner.position], normal, texture }
}

/// Builds the vertex table of a mesh without fault.
fn fill_table(data: &MeshData) -> (table: Vec<ObjVertex>)
    requires
        load_fault(data).is_none(),
    ensures
        table@ == vertex_table(data),
{
    let n = data.positions.len();
    let mut table: Vec<ObjVertex> = Vec::new();
    let mut i: usize = 0;
    while i < n
        invariant
            i <= n,
            table@.len() == i,
            forall|v: int| 0 <= v < i ==> #[trigger] table@[v] == blank_vertex(),
        decreases n - i,
    {
        table.push(ObjVertex { position: [0, 0, 0], normal: [0, 0, 0], texture: [0, 0] });
        i += 1;
    }
    let ghost faces = data.face_seqs();
    let mut seen = seen_new();
    let mut f: usize = 0;
    while f < data.faces.len()
        invariant
            f <= data.faces@.len(),
            faces == data.face_seqs(),
            n == data.positions@.len(),
            n <= u32::MAX,
            load_fault(data).is_none(),
            table@.len() == n,
            forall|v: int|
                0 <= v < n ==> #[trigger] table@[v] == slot(data, corner_list(faces, f as int), v),
            forall|x: u32|
                seen@.contains(x) <==> first_corner(corner_list(faces, f as int), x as int).is_some(),
        decreases data.faces@.len() - f,
    {
        let face = &data.faces[f];
        let mut c: usize = 0;
        while c < face.len()
            invariant
                c <= face@.len(),
                f < data.faces@.len(),
                faces == data.face_seqs(),
                face@ == faces[f as int],
                face@ == data.faces@[f as int]@,
                n == data.positions@.len(),
                n <= u32::MAX,
                load_fault(data).is_none(),
                table@.len() == n,
                forall|v: int|
                    0 <= v < n ==> #[trigger] table@[v] == slot(
                        data,
                        corner_list(faces, f as int) + face@.subrange(0, c as int),
                        v,
                    ),
                forall|x: u32|
                    seen@.contains(x) <==> first_corner(
                        corner_list(faces, f as int) + face@.subrange(0, c as int),
                        x as int,
                    ).is_some(),
            decreases face@.len() - c,
        {
            let corner = face[c];
            let ghost done = corner_list(faces, f as int) + face@.subrange(0, c as int);
            proof {
                lemma_corners_in_range(data, f as int, c as int);
                assert(corner_list(faces, f as int) + face@.subrange(0, c + 1) =~= done.push(
                    corner,
                ));
                assert(done.push(corner).drop_last() =~= done);
            }
            let fresh = seen_insert(&mut seen, corner.position as u32);
            if fresh {
                let v = fill(data, corner);
                table.set(corner.position, v);
            }
            c += 1;
        }
        proof {
            assert(face@.subrange(0, c as int) =~= face@);
        }
        f += 1;
    }
    proof {
        assert(table@ =~= vertex_table(data));
    }
    table
}

/// Links every side of every face into `g`.
fn link_faces(data: &MeshData, g: &mut Graph<(), i64, Directed, u32>)
    requires
        load_fault(data).is_none(),
        graph_order(*old(g)) == data.positions@.len(),
        graph_arcs(*old(g)) == Seq::<(int, int, int)>::empty(),
    ensures
        graph_order(*final(g)) == data.positions@.len(),
        graph_arcs(*final(g)) == mesh_graph(data),
        mesh_ok(mesh_graph(data), data.positions@.len() as int),
{
    let ghost faces = data.face_seqs();
    let ghost n = data.positions@.len() as int;
    let ghost total = all_corners(data).len();
    proof {
        reveal(no_parallel);
        reveal(symmetric);
    }
    let mut f: usize = 0;
    while f < data.faces.len()
        invariant
            f <= data.faces@.len(),
            faces == data.face_seqs(),
            n == data.positions@.len(),
            total == all_corners(data).len(),
            load_fault(data).is_none(),
            graph_order(*g) == n,
            graph_arcs(*g) == mesh_links(faces, f as int),
            mesh_ok(graph_arcs(*g), n),
            graph_arcs(*g).len() <= 2 * corner_list(faces, f as int).len(),
        decreases data.faces@.len() - f,
    {
        let face = &data.faces[f];
        let len = face.len();
        proof {
            lemma_corner_list_grows(faces, f + 1, faces.len() as int);
        }
        let mut i: usize = 0;
        while i < len
            invariant
                i <= len,
                len == face@.len(),
                f < data.faces@.len(),
                faces == data.face_seqs(),
                face@ == faces[f as int],
                face@ == data.faces@[f as int]@,
                n == data.positions@.len(),
                total == all_corners(data).len(),
                2 * total <= u32::MAX,
                corner_list(faces, f as int).len() + len <= total,
                load_fault(data).is_none(),
                graph_order(*g) == n,
                graph_arcs(*g) == face_links(mesh_links(faces, f as int), face@, i as int),
                mesh_ok(graph_arcs(*g), n),
                graph_arcs(*g).len() <= 2 * (corner_list(faces, f as int).len() + i),
            decreases len - i,
        {
            let j: usize = if i + 1 == len {
                0
            } else {
                i + 1
            };
            proof {
                lemma_corners_in_range(data, f as int, i as int);
                lemma_corners_in_range(data, f as int, j as int);
                lemma_upsert(
                    graph_arcs(*g),
                    n,
                    face@[i as int].position as int,
                    face@[j as int].position as int,
                );
                lemma_link(
                    graph_arcs(*g),
                    n,
                    face@[i as int].position as int,
                    face@[j as int].position as int,
                );
            }
            let a: u32 = face[i].position as u32;
            let b: u32 = face[j].position as u32;
            join(g, a, b);
            join(g, b, a);
            i += 1;
        }
        f += 1;
    }
}

impl VertexDag {
    /// Builds the skeleton of a mesh: the vertex table, the mesh graph that
    /// links the corners along every side of every face, and on it the
    /// oriented chains. A mesh with a fault is refused.
    pub fn from_mesh(data: &MeshData) -> (built: Result<VertexDag, LoadError>)
        ensures
            match built {
                Ok(dag) => {
                    &&& load_fault(data).is_none()
                    &&& dag.wf()
                    &&& dag.table() == vertex_table(data)
                    &&& dag.mesh_arcs() == mesh_graph(data)
                    &&& dag.dag_arcs() == orient(
                        mesh_graph(data),
                        data.positions@.len() as int,
                        Seq::empty(),
                    )
                },
                Err(e) => load_fault(data) == Some(e),
            },
    {
        match inspect(data) {
            Some(e) => Err(e),
            None => {
                let table = fill_table(data);
                let mut dag = VertexDag::new(table);
                link_faces(data, &mut dag.undirected);
                proof {
                    reveal(embedded);
                }
                dag.add_dag_edges();
                Ok(dag)
            },
        }
    }
}

} // verus!
