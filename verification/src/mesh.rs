//! Mesh input: attribute arrays and faces, as read from a Wavefront-style file.
//!
//! Coordinates are carried as IEEE-754 single-precision bit patterns. The
//! library moves them around and never computes with them, so a value goes in
//! and comes out bit for bit.

use vstd::prelude::*;

verus! {

/// One corner of a face: an index into the position array and, where the
/// face supplies them, indices into the texture and normal arrays.
#[derive(Clone, Copy, Debug, PartialEq, Eq)]
pub struct FaceCorner {
    pub position: usize,
    pub texture: Option<usize>,
    pub normal: Option<usize>,
}

/// A mesh as loaded: three attribute arrays and the polygons over them.
#[derive(Clone, Debug)]
pub struct MeshData {
    pub positions: Vec<[u32; 3]>,
    pub normals: Vec<[u32; 3]>,
    pub textures: Vec<[u32; 2]>,
    pub faces: Vec<Vec<FaceCorner>>,
}

/// The attributes of one mesh vertex, as bit patterns.
#[derive(Clone, Copy, Debug, PartialEq, Eq)]
pub struct ObjVertex {
    pub position: [u32; 3],
    pub normal: [u32; 3],
    pub texture: [u32; 2],
}

/// Why a mesh was refused.
#[derive(Clone, Copy, Debug, PartialEq, Eq)]
pub enum LoadError {
    /// More positions than node indices.
    TooManyVertices,
    /// The faces have more sides than the graph can hold arcs for.
    TooManyEdges,
    /// A corner names a position that the position array lacks.
    PositionOutOfRange,
    /// A corner names a texture coordinate that the texture array lacks.
    TextureOutOfRange,
    /// A corner names a normal that the normal array lacks.
    NormalOutOfRange,
}

/// The vertex with every attribute zero.
pub open spec fn blank_vertex() -> ObjVertex {
    ObjVertex { position: [0u32, 0u32, 0u32], normal: [0u32, 0u32, 0u32], texture: [0u32, 0u32] }
}

impl Default for ObjVertex {
    fn default() -> (v: ObjVertex)
        ensures
            v == blank_vertex(),
    {
        ObjVertex { position: [0, 0, 0], normal: [0, 0, 0], texture: [0, 0] }
    }
}

impl MeshData {
    /// The faces as sequences of corners.
    pub open spec fn face_seqs(&self) -> Seq<Seq<FaceCorner>> {
        Seq::new(self.faces@.len(), |f: int| self.faces@[f]@)
    }
}

/// The corners of the first `upto` faces, in order.
pub open spec fn corner_list(faces: Seq<Seq<FaceCorner>>, upto: int) -> Seq<FaceCorner>
    decreases upto,
{
    if upto <= 0 {
        Seq::empty()
    } else {
        corner_list(faces, upto - 1) + faces[upto - 1]
    }
}

/// The position indices of one face.
pub open spec fn corner_positions(face: Seq<FaceCorner>) -> Seq<usize> {
    Seq::new(face.len(), |c: int| face[c].position)
}

/// The position indices of every face, face by face.
pub fn obj_triangles(data: &MeshData) -> (out: Vec<Vec<usize>>)
    ensures
        out@.len() == data.faces@.len(),
        forall|f: int|
            0 <= f < out@.len() ==> (#[trigger] out@[f])@ == corner_positions(data.faces@[f]@),
{
    let mut out: Vec<Vec<usize>> = Vec::new();
    let mut f: usize = 0;
    while f < data.faces.len()
        invariant
            f <= data.faces@.len(),
            out@.len() == f,
            forall|g: int|
                0 <= g < f ==> (#[trigger] out@[g])@ == corner_positions(data.faces@[g]@),
        decreases data.faces@.len() - f,
    {
        let face = &data.faces[f];
        let mut row: Vec<usize> = Vec::new();
        let mut c: usize = 0;
        while c < face.len()
            invariant
                c <= face@.len(),
                row@ == corner_positions(face@.subrange(0, c as int)),
            decreases face@.len() - c,
        {
            row.push(face[c].position);
            proof {
                assert(corner_positions(face@.subrange(0, c + 1)) =~= corner_positions(
                    face@.subrange(0, c as int),
                ).push(face@[c as int].position));
            }
            c += 1;
        }
        proof {
            assert(face@.subrange(0, c as int) =~= face@);
        }
        out.push(row);
        f += 1;
    }
    out
}

} // verus!
