//! Index and vertex lists for drawing: the triangles that face the viewer
//! as one flat index list, the vertices these triangles use, and the index
//! pairs that draw a path as line segments.

use vstd::prelude::*;

use crate::mesh::ObjVertex;
use crate::seen::{seen_contains, seen_insert, seen_new};

verus! {

/// The texture coordinate that marks a vertex as unused: minus one, twice,
/// as bit patterns.
pub const UNUSED_MARK: u32 = 0xBF80_0000;

/// Face indices read as integers.
pub open spec fn face_ints(face: Seq<usize>) -> Seq<int> {
    Seq::new(face.len(), |i: int| face[i] as int)
}

/// Buffer indices read as integers.
pub open spec fn wide(list: Seq<u32>) -> Seq<int> {
    Seq::new(list.len(), |i: int| list[i] as int)
}

/// The indices of the faces among the first `upto` whose flag is set, face
/// after face.
pub open spec fn kept_indices(faces: Seq<Vec<usize>>, keep: Seq<bool>, upto: int) -> Seq<int>
    decreases upto,
{
    if upto <= 0 {
        Seq::empty()
    } else if keep[upto - 1] {
        kept_indices(faces, keep, upto - 1) + face_ints(faces[upto - 1]@)
    } else {
        kept_indices(faces, keep, upto - 1)
    }
}

/// Every index of every kept face among the first `upto` fits 32 bits.
pub open spec fn kept_fit(faces: Seq<Vec<usize>>, keep: Seq<bool>, upto: int) -> bool {
    forall|f: int, c: int|
        0 <= f < upto && keep[f] && 0 <= c < faces[f]@.len() ==> (#[trigger] faces[f]@[c])
            <= u32::MAX
}

/// The vertex that goes into the buffer for position `p`: the position
/// itself where the vertex is used, and a blank position with the unused
/// mark where it is not.
pub open spec fn buffer_vertex(p: [u32; 3], used: bool) -> ObjVertex {
    if used {
        ObjVertex { position: p, normal: [0u32, 0u32, 0u32], texture: [0u32, 0u32] }
    } else {
        ObjVertex {
            position: [0u32, 0u32, 0u32],
            normal: [0u32, 0u32, 0u32],
            texture: [UNUSED_MARK, UNUSED_MARK],
        }
    }
}

/// The flat index list of the faces whose flag in `keep` is set. `None`
/// when `keep` does not have one flag per face, or a kept index does not
/// fit 32 bits.
pub fn visible_indices(faces: &Vec<Vec<usize>>, keep: &Vec<bool>) -> (out: Option<Vec<u32>>)
    ensures
        out.is_some() <==> keep@.len() == faces@.len() && kept_fit(
            faces@,
            keep@,
            faces@.len() as int,
        ),
        out matches Some(list) ==> wide(list@) == kept_indices(
            faces@,
            keep@,
            faces@.len() as int,
        ),
{
    if keep.len() != faces.len() {
        return None;
    }
    let mut list: Vec<u32> = Vec::new();
    let mut f: usize = 0;
    while f < faces.len()
        invariant
            f <= faces@.len(),
            keep@.len() == faces@.len(),
            kept_fit(faces@, keep@, f as int),
            wide(list@) == kept_indices(faces@, keep@, f as int),
        decreases faces@.len() - f,
    {
        if keep[f] {
            let face = &faces[f];
            let ghost head = list@;
            let mut c: usize = 0;
            while c < face.len()
                invariant
                    c <= face@.len(),
                    f < faces@.len(),
                    face@ == faces@[f as int]@,
                    keep@.len() == faces@.len(),
                    keep@[f as int],
                    forall|t: int| 0 <= t < c ==> (#[trigger] face@[t]) <= u32::MAX,
                    wide(list@) == wide(head) + face_ints(face@.subrange(0, c as int)),
                decreases face@.len() - c,
            {
                if face[c] > u32::MAX as usize {
                    assert(!kept_fit(faces@, keep@, faces@.len() as int)) by {
                        assert(faces@[f as int]@[c as int] > u32::MAX);
                    }
                    return None;
                }
                let ghost prior = list@;
                list.push(face[c] as u32);
                proof {
                    assert(wide(list@) =~= wide(prior).push(face@[c as int] as int));
                    assert(face_ints(face@.subrange(0, c + 1)) =~= face_ints(
                        face@.subrange(0, c as int),
                    ).push(face@[c as int] as int));
                }
                c += 1;
            }
            assert(face@.subrange(0, c as int) =~= face@);
        }
        f += 1;
    }
    Some(list)
}

/// The vertex buffer for the transformed positions `positions`, of which
/// `indices` are drawn: a vertex that some index names keeps its position,
/// every other vertex is blanked and marked unused.
pub fn mask_vertices(positions: &Vec<[u32; 3]>, indices: &Vec<u32>) -> (out: Vec<ObjVertex>)
    ensures
        out@.len() == positions@.len(),
        forall|v: int|
            0 <= v < out@.len() ==> #[trigger] out@[v] == buffer_vertex(
                positions@[v],
                exists|i: int| 0 <= i < indices@.len() && #[trigger] indices@[i] == v,
            ),
{
    let mut used = seen_new();
    let mut i: usize = 0;
    while i < indices.len()
        invariant
            i <= indices@.len(),
            forall|x: u32|
                used@.contains(x) <==> exists|t: int| 0 <= t < i && #[trigger] indices@[t] == x,
        decreases indices@.len() - i,
    {
        let ghost before = used@;
        seen_insert(&mut used, indices[i]);
        proof {
            assert forall|x: u32| used@.contains(x) <==> exists|t: int|
                0 <= t < i + 1 && #[trigger] indices@[t] == x by {
                if before.contains(x) {
                    let t = choose|t: int| 0 <= t < i && #[trigger] indices@[t] == x;
                    assert(0 <= t < i + 1 && indices@[t] == x);
                }
                if x == indices@[i as int] {
                    assert(0 <= i < i + 1 && indices@[i as int] == x);
                }
            }
        }
        i += 1;
    }
    let mut out: Vec<ObjVertex> = Vec::new();
    let mut v: usize = 0;
    while v < positions.len()
        invariant
            v <= positions@.len(),
            out@.len() == v,
            forall|x: u32|
                used@.contains(x) <==> exists|t: int|
                    0 <= t < indices@.len() && #[trigger] indices@[t] == x,
            forall|u: int|
                0 <= u < v ==> #[trigger] out@[u] == buffer_vertex(
                    positions@[u],
                    exists|t: int| 0 <= t < indices@.len() && #[trigger] indices@[t] == u,
                ),
        decreases positions@.len() - v,
    {
        let drawn: bool = v <= u32::MAX as usize && seen_contains(&used, v as u32);
        proof {
            let named = exists|t: int| 0 <= t < indices@.len() && #[trigger] indices@[t] == v;
            if named {
                let t = choose|t: int| 0 <= t < indices@.len() && #[trigger] indices@[t] == v;
                assert(used@.contains(indices@[t]));
            }
            if drawn {
                let t = choose|t: int|
                    0 <= t < indices@.len() && #[trigger] indices@[t] == v as u32;
                assert(indices@[t] == v);
            }
            assert(drawn == named);
        }
        if drawn {
            out.push(ObjVertex { position: positions[v], normal: [0, 0, 0], texture: [0, 0] });
        } else {
            out.push(
                ObjVertex {
                    position: [0, 0, 0],
                    normal: [0, 0, 0],
                    texture: [UNUSED_MARK, UNUSED_MARK],
                },
            );
        }
        v += 1;
    }
    out
}

/// The index pairs that draw `count` vertices in a row as line segments:
/// `0 1 1 2 2 3` and so on. Fewer than two vertices make no segment.
pub fn line_indices(count: u32) -> (out: Vec<u32>)
    requires
        2 * count <= usize::MAX,
    ensures
        out@.len() == if count == 0 {
            0
        } else {
            2 * (count - 1)
        },
        forall|i: int|
            0 <= i < out@.len() ==> #[trigger] out@[i] == if i % 2 == 0 {
                i / 2
            } else {
                i / 2 + 1
            },
{
    let mut out: Vec<u32> = Vec::new();
    let last: u32 = if count == 0 {
        0
    } else {
        count - 1
    };
    let mut i: u32 = 0;
    while i < last
        invariant
            i <= last,
            last < u32::MAX || count == 0,
            out@.len() == 2 * i,
            forall|t: int|
                0 <= t < out@.len() ==> #[trigger] out@[t] == if t % 2 == 0 {
                    t / 2
                } else {
                    t / 2 + 1
                },
        decreases last - i,
    {
        out.push(i);
        out.push(i + 1);
        i += 1;
    }
    out
}

} // verus!
