use vstd::prelude::*;

verus! {

/// Number of entries in the block registry; valid ids are `0..BLOCK_COUNT`.
pub const BLOCK_COUNT: usize = 13;

/// Id of empty space.
pub const AIR: usize = 0;

pub const STONE: usize = 1;

pub const GRASS: usize = 2;

pub const DIRT: usize = 3;

pub const OAK_LOG: usize = 9;

pub const OAK_LEAVES: usize = 11;

/// Behavioural family of a block, which also decides the render layer of its faces.
#[derive(Clone, Copy, PartialEq, Eq, Structural, Debug)]
pub enum BlockType {
    Block,
    Grass,
    Leaves,
    Water,
    Lava,
}

/// Geometry a block contributes to a chunk mesh.
#[derive(Clone, Copy, PartialEq, Eq, Structural, Debug)]
pub enum MeshType {
    /// A unit cube whose faces are culled against their neighbours.
    Block,
    /// Two diagonal quads, always emitted (flora).
    CrossedPlanes,
}

/// A tile of the texture atlas, as column and row of its 16x16 grid.
#[derive(Clone, Copy, PartialEq, Eq, Structural, Debug)]
pub struct Tile {
    pub x: u8,
    pub y: u8,
}

/// Atlas tiles of a block's faces.
#[derive(Clone, Copy, PartialEq, Eq, Structural, Debug)]
pub enum TextureType {
    Single(Tile),
    TopAndSide(Tile, Tile),
    TopSideBottom(Tile, Tile, Tile),
}

/// One registry entry.
#[derive(Clone, Copy)]
pub struct Block {
    pub id: usize,
    pub name: &'static str,
    pub transparent: bool,
    pub solid: bool,
    pub block_type: BlockType,
    pub mesh_type: MeshType,
    pub texture_map: Option<TextureType>,
}

pub open spec fn valid_block_id(id: int) -> bool {
    0 <= id < BLOCK_COUNT
}

/// Flora: rose, dandelion and short grass.
pub open spec fn is_crossed(id: int) -> bool {
    id == 7 || id == 10 || id == 12
}

/// Light passes through air, flora, glass and leaves.
pub open spec fn is_transparent(id: int) -> bool {
    id == 0 || id == 8 || id == 11 || is_crossed(id)
}

/// Bodies collide with every block but air and flora.
pub open spec fn is_solid(id: int) -> bool {
    id != 0 && !is_crossed(id)
}

pub open spec fn block_type_of(id: int) -> BlockType {
    if is_crossed(id) {
        BlockType::Grass
    } else if id == 11 {
        BlockType::Leaves
    } else {
        BlockType::Block
    }
}

pub open spec fn mesh_type_of(id: int) -> MeshType {
    if is_crossed(id) {
        MeshType::CrossedPlanes
    } else {
        MeshType::Block
    }
}

pub open spec fn texture_of(id: int) -> Option<TextureType> {
    if id == 1 {
        Some(TextureType::Single(Tile { x: 1, y: 15 }))
    } else if id == 2 {
        Some(TextureType::TopSideBottom(Tile { x: 0, y: 15 }, Tile { x: 3, y: 15 }, Tile { x: 2, y: 15 }))
    } else if id == 3 {
        Some(TextureType::Single(Tile { x: 2, y: 15 }))
    } else if id == 4 {
        Some(TextureType::Single(Tile { x: 0, y: 14 }))
    } else if id == 5 {
        Some(TextureType::Single(Tile { x: 4, y: 15 }))
    } else if id == 6 {
        Some(TextureType::Single(Tile { x: 2, y: 14 }))
    } else if id == 7 {
        Some(TextureType::Single(Tile { x: 12, y: 15 }))
    } else if id == 8 {
        Some(TextureType::Single(Tile { x: 1, y: 12 }))
    } else if id == 9 {
        Some(TextureType::TopAndSide(Tile { x: 5, y: 14 }, Tile { x: 4, y: 14 }))
    } else if id == 10 {
        Some(TextureType::Single(Tile { x: 13, y: 15 }))
    } else if id == 11 {
        Some(TextureType::Single(Tile { x: 4, y: 12 }))
    } else if id == 12 {
        Some(TextureType::Single(Tile { x: 7, y: 13 }))
    } else {
        None
    }
}

/// Tile of face slot `slot` (0: +x, 1: -x, 2: +y (top), 3: -y (bottom), 4: +z, 5: -z).
pub open spec fn tile_of(tex: Option<TextureType>, slot: int) -> Tile {
    match tex {
        None => Tile { x: 0, y: 0 },
        Some(TextureType::Single(t)) => t,
        Some(TextureType::TopAndSide(top, side)) => if slot == 2 {
            top
        } else {
            side
        },
        Some(TextureType::TopSideBottom(top, side, bottom)) => if slot == 2 {
            top
        } else if slot == 3 {
            bottom
        } else {
            side
        },
    }
}

/// Looks up the registry entry of a block id.
pub fn block(id: usize) -> (b: Block)
    requires
        valid_block_id(id as int),
    ensures
        b.id == id,
        b.transparent == is_transparent(id as int),
        b.solid == is_solid(id as int),
        b.block_type == block_type_of(id as int),
        b.mesh_type == mesh_type_of(id as int),
        b.texture_map == texture_of(id as int),
{
    let (name, transparent, block_type, mesh_type, texture_map) = match id {
        0 => ("Air", true, BlockType::Block, MeshType::Block, None),
        1 => ("Stone", false, BlockType::Block, MeshType::Block, Some(TextureType::Single(Tile { x: 1, y: 15 }))),
        2 => (
            "Grass",
            false,
            BlockType::Block,
            MeshType::Block,
            Some(TextureType::TopSideBottom(Tile { x: 0, y: 15 }, Tile { x: 3, y: 15 }, Tile { x: 2, y: 15 })),
        ),
        3 => ("Dirt", false, BlockType::Block, MeshType::Block, Some(TextureType::Single(Tile { x: 2, y: 15 }))),
        4 => (
            "Cobblestone",
            false,
            BlockType::Block,
            MeshType::Block,
            Some(TextureType::Single(Tile { x: 0, y: 14 })),
        ),
        5 => ("Oak Plank", false, BlockType::Block, MeshType::Block, Some(TextureType::Single(Tile { x: 4, y: 15 }))),
        6 => ("Sand", false, BlockType::Block, MeshType::Block, Some(TextureType::Single(Tile { x: 2, y: 14 }))),
        7 => ("Rose", true, BlockType::Grass, MeshType::CrossedPlanes, Some(TextureType::Single(Tile { x: 12, y: 15 }))),
        8 => ("Glass", true, BlockType::Block, MeshType::Block, Some(TextureType::Single(Tile { x: 1, y: 12 }))),
        9 => (
            "Oak Log",
            false,
            BlockType::Block,
            MeshType::Block,
            Some(TextureType::TopAndSide(Tile { x: 5, y: 14 }, Tile { x: 4, y: 14 })),
        ),
        10 => (
            "Dandelion",
            true,
            BlockType::Grass,
            MeshType::CrossedPlanes,
            Some(TextureType::Single(Tile { x: 13, y: 15 })),
        ),
        11 => ("Oak Leaves", true, BlockType::Leaves, MeshType::Block, Some(TextureType::Single(Tile { x: 4, y: 12 }))),
        _ => (
            "Short Grass",
            true,
            BlockType::Grass,
            MeshType::CrossedPlanes,
            Some(TextureType::Single(Tile { x: 7, y: 13 })),
        ),
    };
    let solid = id != AIR && !(id == 7 || id == 10 || id == 12);
    Block { id, name, transparent, solid, block_type, mesh_type, texture_map }
}

/// Tile of one face slot of a texture mapping.
pub fn face_tile(tex: Option<TextureType>, slot: usize) -> (r: Tile)
    ensures
        r == tile_of(tex, slot as int),
{
    match tex {
        None => Tile { x: 0, y: 0 },
        Some(TextureType::Single(t)) => t,
        Some(TextureType::TopAndSide(top, side)) => if slot == 2 {
            top
        } else {
            side
        },
        Some(TextureType::TopSideBottom(top, side, bottom)) => if slot == 2 {
            top
        } else if slot == 3 {
            bottom
        } else {
            side
        },
    }
}

impl Block {
    /// A registry entry with the given attributes.
    pub fn new(
        id: usize,
        name: &'static str,
        transparent: bool,
        solid: bool,
        block_type: BlockType,
        mesh_type: MeshType,
        texture_map: Option<TextureType>,
    ) -> (b: Block)
        ensures
            b.id == id,
            b.name == name,
            b.transparent == transparent,
            b.solid == solid,
            b.block_type == block_type,
            b.mesh_type == mesh_type,
            b.texture_map == texture_map,
    {
        Block { id, name, transparent, solid, block_type, mesh_type, texture_map }
    }
}

impl Default for Block {
    /// The empty-space entry.
    fn default() -> (b: Block)
        ensures
            b.id == AIR,
            b.transparent,
            !b.solid,
            b.block_type == BlockType::Block,
            b.mesh_type == MeshType::Block,
            b.texture_map.is_none(),
    {
        block(AIR)
    }
}

} // verus!
