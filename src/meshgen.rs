use vstd::prelude::*;
use crate::block::{
    block, block_type_of, face_tile, is_crossed, is_transparent, texture_of, tile_of,
    valid_block_id, BlockType, MeshType, Tile, AIR,
};
use crate::coords::{in_local_range, Local3};

verus! {

/// The quads a block can contribute: its six cube faces and the two diagonal planes of flora.
#[derive(Clone, Copy, PartialEq, Eq, Structural, Debug)]
pub enum FaceDir {
    PosX,
    NegX,
    PosY,
    NegY,
    PosZ,
    NegZ,
    DiagonalA,
    DiagonalB,
}

/// The draw pass a face belongs to.
#[derive(Clone, Copy, PartialEq, Eq, Structural, Debug)]
pub enum RenderLayer {
    Solid,
    Grass,
    Leaves,
}

/// One quad of a chunk mesh (two triangles, six vertices once expanded), placed at a
/// cell of the chunk and textured with one atlas tile.
#[derive(Clone, Copy, PartialEq, Eq, Structural, Debug)]
pub struct Face {
    pub x: u8,
    pub y: u8,
    pub z: u8,
    pub dir: FaceDir,
    pub tile: Tile,
    pub layer: RenderLayer,
}

/// Vertices per face: two triangles, no index buffer.
pub const VERTICES_PER_FACE: usize = 6;

/// The six cube faces, in emission order.
pub open spec fn cube_dir(k: int) -> FaceDir {
    if k == 0 {
        FaceDir::PosX
    } else if k == 1 {
        FaceDir::NegX
    } else if k == 2 {
        FaceDir::PosY
    } else if k == 3 {
        FaceDir::NegY
    } else if k == 4 {
        FaceDir::PosZ
    } else {
        FaceDir::NegZ
    }
}

/// Texture slot of a face; the diagonal planes use the first one.
pub open spec fn slot_of(d: FaceDir) -> int {
    match d {
        FaceDir::PosX => 0,
        FaceDir::NegX => 1,
        FaceDir::PosY => 2,
        FaceDir::NegY => 3,
        FaceDir::PosZ => 4,
        FaceDir::NegZ => 5,
        _ => 0,
    }
}

/// Unit step from a cell to the neighbour behind cube face `k`.
pub open spec fn dir_offset(k: int) -> (int, int, int) {
    if k == 0 {
        (1, 0, 0)
    } else if k == 1 {
        (-1, 0, 0)
    } else if k == 2 {
        (0, 1, 0)
    } else if k == 3 {
        (0, -1, 0)
    } else if k == 4 {
        (0, 0, 1)
    } else {
        (0, 0, -1)
    }
}

pub open spec fn layer_of(t: BlockType) -> RenderLayer {
    match t {
        BlockType::Grass => RenderLayer::Grass,
        BlockType::Leaves => RenderLayer::Leaves,
        _ => RenderLayer::Solid,
    }
}

/// Face `d` of block `id` standing at local cell `l`.
pub open spec fn face_for(l: (int, int, int), id: int, d: FaceDir) -> Face {
    Face {
        x: l.0 as u8,
        y: l.1 as u8,
        z: l.2 as u8,
        dir: d,
        tile: tile_of(texture_of(id), slot_of(d)),
        layer: layer_of(block_type_of(id)),
    }
}

/// Whether a cube face of block `id` is visible next to neighbour `nb` (`None`: the
/// neighbour's chunk is not loaded, which counts as transparent): the neighbour lets light
/// through and is not the same block.
pub open spec fn shows_face(id: int, nb: Option<usize>) -> bool {
    match nb {
        None => true,
        Some(n) => is_transparent(n as int) && n != id,
    }
}

pub open spec fn face_if(b: bool, f: Face) -> Seq<Face> {
    if b {
        seq![f]
    } else {
        Seq::empty()
    }
}

/// Visible faces among the first `k` cube faces of block `id` at cell `l`, given its six
/// neighbours in cube-face order.
pub open spec fn cube_faces(id: int, l: (int, int, int), nb: Seq<Option<usize>>, k: int) -> Seq<Face>
    decreases k,
{
    if k <= 0 {
        Seq::empty()
    } else {
        cube_faces(id, l, nb, k - 1) + face_if(shows_face(id, nb[k - 1]), face_for(l, id, cube_dir(k - 1)))
    }
}

/// Faces block `id` at cell `l` contributes to its chunk's mesh: nothing for air, the two
/// diagonal planes for flora whatever surrounds them, and the visible cube faces otherwise.
pub open spec fn block_faces(id: int, l: (int, int, int), nb: Seq<Option<usize>>) -> Seq<Face> {
    if id == AIR {
        Seq::empty()
    } else if is_crossed(id) {
        seq![face_for(l, id, FaceDir::DiagonalA), face_for(l, id, FaceDir::DiagonalB)]
    } else {
        cube_faces(id, l, nb, 6)
    }
}

fn render_layer(t: BlockType) -> (r: RenderLayer)
    ensures
        r == layer_of(t),
{
    match t {
        BlockType::Grass => RenderLayer::Grass,
        BlockType::Leaves => RenderLayer::Leaves,
        _ => RenderLayer::Solid,
    }
}

/// Appends face `face` of the cell at `position`, textured with `tile`.
pub fn push_face(
    position: &Local3,
    face: FaceDir,
    faces: &mut Vec<Face>,
    tile: Tile,
    layer: RenderLayer,
)
    requires
        in_local_range(position@),
    ensures
        final(faces)@ == old(faces)@.push(
            Face {
                x: position.x as u8,
                y: position.y as u8,
                z: position.z as u8,
                dir: face,
                tile,
                layer,
            },
        ),
{
    faces.push(
        Face {
            x: position.x as u8,
            y: position.y as u8,
            z: position.z as u8,
            dir: face,
            tile,
            layer,
        },
    );
}

fn cube_face_dir(k: usize) -> (d: FaceDir)
    requires
        k < 6,
    ensures
        d == cube_dir(k as int),
        slot_of(d) == k,
{
    if k == 0 {
        FaceDir::PosX
    } else if k == 1 {
        FaceDir::NegX
    } else if k == 2 {
        FaceDir::PosY
    } else if k == 3 {
        FaceDir::NegY
    } else if k == 4 {
        FaceDir::PosZ
    } else {
        FaceDir::NegZ
    }
}

fn shows_face_exec(id: usize, nb: Option<usize>) -> (r: bool)
    requires
        nb matches Some(n) ==> valid_block_id(n as int),
    ensures
        r == shows_face(id as int, nb),
{
    match nb {
        None => true,
        Some(n) => block(n).transparent && n != id,
    }
}

/// Appends the faces block `id` at `position` contributes, given its neighbours in
/// cube-face order (+x, -x, +y, -y, +z, -z; `None` where the neighbour is not loaded).
pub fn push_block_faces(
    faces: &mut Vec<Face>,
    id: usize,
    position: &Local3,
    neighbours: &[Option<usize>; 6],
)
    requires
        valid_block_id(id as int),
        in_local_range(position@),
        forall|k: int| 0 <= k < 6 ==> (#[trigger] neighbours@[k] matches Some(n) ==> valid_block_id(n as int)),
    ensures
        final(faces)@ == old(faces)@ + block_faces(id as int, position@, neighbours@),
{
    if id == AIR {
        assert(old(faces)@ + Seq::<Face>::empty() =~= old(faces)@);
        return ;
    }
    let b = block(id);
    let layer = render_layer(b.block_type);
    match b.mesh_type {
        MeshType::CrossedPlanes => {
            let tile = face_tile(b.texture_map, 0);
            push_face(position, FaceDir::DiagonalA, faces, tile, layer);
            push_face(position, FaceDir::DiagonalB, faces, tile, layer);
            assert(final(faces)@ =~= old(faces)@ + block_faces(id as int, position@, neighbours@));
        },
        MeshType::Block => {
            let mut k: usize = 0;
            while k < 6
                invariant
                    k <= 6,
                    b.texture_map == texture_of(id as int),
                    layer == layer_of(block_type_of(id as int)),
                    in_local_range(position@),
                    forall|j: int| 0 <= j < 6 ==> (#[trigger] neighbours@[j] matches Some(n) ==> valid_block_id(n as int)),
                    faces@ == old(faces)@ + cube_faces(id as int, position@, neighbours@, k as int),
                decreases 6 - k,
            {
                let ghost before = faces@;
                let dir = cube_face_dir(k);
                if shows_face_exec(id, neighbours[k]) {
                    push_face(position, dir, faces, face_tile(b.texture_map, k), layer);
                }
                assert(faces@ =~= old(faces)@ + cube_faces(id as int, position@, neighbours@, k + 1));
                k = k + 1;
            }
        },
    }
}

} // verus!
