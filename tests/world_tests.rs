use blockworld::block::{block, face_tile, Block, BlockType, MeshType, TextureType, Tile, AIR};
use blockworld::coords::{chunk_and_block_index, floor_div, Local3, Pos3};
use blockworld::meshgen::{push_block_faces, push_face, Face, FaceDir, RenderLayer, VERTICES_PER_FACE};
use blockworld::world::{gen_terrain, Chunk, Column, World};

const STONE: usize = 1;
const GLASS: usize = 8;
const ROSE: usize = 7;

fn idx(x: usize, y: usize, z: usize) -> usize {
    x * 256 + y * 16 + z
}

fn empty_grid() -> Vec<usize> {
    vec![0; 4096]
}

fn world_with(grid: Vec<usize>) -> World {
    let mut w = World::new();
    w.chunk_from_block_array(Pos3::new(0, 0, 0), grid);
    w
}

fn face_count(w: &World, c: Pos3) -> usize {
    w.chunk_mesh(&c).expect("chunk has a mesh").len()
}

#[test]
fn split_negative_coordinates() {
    let (c, l) = chunk_and_block_index(&Pos3::new(-1, 0, 17));
    assert_eq!(c, Pos3::new(-1, 0, 1));
    assert_eq!(l, Local3::new(15, 0, 1));
    let (c, l) = chunk_and_block_index(&Pos3::new(-16, -17, 15));
    assert_eq!(c, Pos3::new(-1, -2, 0));
    assert_eq!(l, Local3::new(0, 15, 15));
}

#[test]
fn split_recombines_for_many_positions() {
    for v in -70i64..70 {
        let p = Pos3::new(v, -v, v * 3 - 5);
        let (c, l) = chunk_and_block_index(&p);
        assert_eq!(c.x * 16 + l.x as i64, p.x);
        assert_eq!(c.y * 16 + l.y as i64, p.y);
        assert_eq!(c.z * 16 + l.z as i64, p.z);
        assert!(l.x < 16 && l.y < 16 && l.z < 16);
    }
    let far = Pos3::new(i64::MIN, i64::MAX, -9);
    let (c, l) = chunk_and_block_index(&far);
    assert_eq!(c.x * 16 + l.x as i64, i64::MIN);
    assert_eq!(c.y * 16 + l.y as i64, i64::MAX);
}

#[test]
fn floor_division_rounds_down() {
    assert_eq!(floor_div(-1, 1024), -1);
    assert_eq!(floor_div(-1024, 1024), -1);
    assert_eq!(floor_div(-1025, 1024), -2);
    assert_eq!(floor_div(1023, 1024), 0);
    assert_eq!(floor_div(2048, 1024), 2);
}

#[test]
fn registry_entries() {
    let air = block(AIR);
    assert!(air.transparent && !air.solid && air.texture_map.is_none());
    let grass = block(2);
    assert_eq!(grass.name, "Grass");
    assert!(!grass.transparent && grass.solid);
    assert_eq!(
        grass.texture_map,
        Some(TextureType::TopSideBottom(Tile { x: 0, y: 15 }, Tile { x: 3, y: 15 }, Tile { x: 2, y: 15 }))
    );
    let rose = block(ROSE);
    assert_eq!(rose.mesh_type, MeshType::CrossedPlanes);
    assert_eq!(rose.block_type, BlockType::Grass);
    assert!(rose.transparent && !rose.solid);
    assert_eq!(block(11).block_type, BlockType::Leaves);
    assert_eq!(block(12).name, "Short Grass");
    let d = Block::default();
    assert_eq!(d.id, AIR);
    assert_eq!(d.name, "Air");
    assert!(d.transparent && !d.solid);
    let custom = Block::new(20, "Marble", false, true, BlockType::Block, MeshType::Block, None);
    assert_eq!(custom.id, 20);
    assert_eq!(custom.name, "Marble");
    assert!(custom.solid && !custom.transparent);
}

#[test]
fn face_tiles_follow_the_mapping() {
    let grass = block(2).texture_map;
    assert_eq!(face_tile(grass, 2), Tile { x: 0, y: 15 });
    assert_eq!(face_tile(grass, 3), Tile { x: 2, y: 15 });
    assert_eq!(face_tile(grass, 0), Tile { x: 3, y: 15 });
    let log = block(9).texture_map;
    assert_eq!(face_tile(log, 2), Tile { x: 5, y: 14 });
    assert_eq!(face_tile(log, 3), Tile { x: 4, y: 14 });
    assert_eq!(face_tile(None, 4), Tile { x: 0, y: 0 });
}

#[test]
fn push_face_appends_one_quad() {
    let mut faces: Vec<Face> = Vec::new();
    push_face(&Local3::new(1, 2, 3), FaceDir::NegY, &mut faces, Tile { x: 4, y: 5 }, RenderLayer::Leaves);
    assert_eq!(faces.len(), 1);
    assert_eq!(
        faces[0],
        Face { x: 1, y: 2, z: 3, dir: FaceDir::NegY, tile: Tile { x: 4, y: 5 }, layer: RenderLayer::Leaves }
    );
}

#[test]
fn block_faces_cull_against_neighbours() {
    let mut faces: Vec<Face> = Vec::new();
    let nb = [Some(STONE), Some(AIR), None, Some(GLASS), Some(2), Some(ROSE)];
    push_block_faces(&mut faces, STONE, &Local3::new(0, 0, 0), &nb);
    let dirs: Vec<FaceDir> = faces.iter().map(|f| f.dir).collect();
    assert_eq!(dirs, vec![FaceDir::NegX, FaceDir::PosY, FaceDir::NegY, FaceDir::NegZ]);
    let mut glass_faces: Vec<Face> = Vec::new();
    let nb = [Some(GLASS), Some(GLASS), Some(AIR), Some(AIR), Some(GLASS), Some(STONE)];
    push_block_faces(&mut glass_faces, GLASS, &Local3::new(3, 3, 3), &nb);
    assert_eq!(glass_faces.len(), 2);
    let mut none: Vec<Face> = Vec::new();
    push_block_faces(&mut none, AIR, &Local3::new(3, 3, 3), &[None; 6]);
    assert!(none.is_empty());
}

#[test]
fn isolated_block_has_six_faces() {
    let mut g = empty_grid();
    g[idx(5, 5, 5)] = STONE;
    let w = world_with(g);
    let n = face_count(&w, Pos3::new(0, 0, 0));
    assert_eq!(n, 6);
    assert_eq!(n * VERTICES_PER_FACE, 36);
}

#[test]
fn adjacent_equal_blocks_share_no_faces() {
    let mut g = empty_grid();
    g[idx(5, 5, 5)] = STONE;
    g[idx(6, 5, 5)] = STONE;
    let w = world_with(g);
    assert_eq!(face_count(&w, Pos3::new(0, 0, 0)), 10);
    let mut g = empty_grid();
    g[idx(5, 5, 5)] = GLASS;
    g[idx(5, 6, 5)] = GLASS;
    let w = world_with(g);
    assert_eq!(face_count(&w, Pos3::new(0, 0, 0)), 10);
}

#[test]
fn flora_always_emits_two_planes() {
    let mut g = empty_grid();
    g[idx(5, 5, 5)] = ROSE;
    g[idx(5, 4, 5)] = STONE;
    g[idx(6, 5, 5)] = STONE;
    let w = world_with(g);
    let faces = w.chunk_mesh(&Pos3::new(0, 0, 0)).unwrap();
    let planes: Vec<&Face> = faces.iter().filter(|f| f.x == 5 && f.y == 5 && f.z == 5).collect();
    assert_eq!(planes.len(), 2);
    assert_eq!(planes[0].dir, FaceDir::DiagonalA);
    assert_eq!(planes[1].dir, FaceDir::DiagonalB);
    assert_eq!(planes[0].layer, RenderLayer::Grass);
    assert_eq!(planes[0].tile, Tile { x: 12, y: 15 });
}

#[test]
fn faces_on_unloaded_border_are_kept() {
    let mut g = empty_grid();
    g[idx(0, 0, 0)] = STONE;
    let w = world_with(g);
    assert_eq!(face_count(&w, Pos3::new(0, 0, 0)), 6);
}

#[test]
fn regenerating_twice_gives_identical_mesh() {
    let mut g = empty_grid();
    g[idx(1, 2, 3)] = 2;
    g[idx(1, 3, 3)] = GLASS;
    g[idx(9, 9, 9)] = ROSE;
    let mut w = world_with(g);
    let c = Pos3::new(0, 0, 0);
    w.gen_chunk_mesh(&c);
    let first: Vec<Face> = w.chunk_mesh(&c).unwrap().clone();
    w.gen_chunk_mesh(&c);
    let second: Vec<Face> = w.chunk_mesh(&c).unwrap().clone();
    assert_eq!(first.len(), second.len());
    assert_eq!(first, second);
}

#[test]
fn boundary_faces_follow_the_neighbour_chunk() {
    let mut a = empty_grid();
    a[idx(15, 4, 4)] = STONE;
    let mut b = empty_grid();
    b[idx(0, 4, 4)] = STONE;
    let mut w = World::new();
    w.chunk_from_block_array(Pos3::new(0, 0, 0), a);
    assert_eq!(face_count(&w, Pos3::new(0, 0, 0)), 6);
    w.chunk_from_block_array(Pos3::new(1, 0, 0), b);
    assert_eq!(face_count(&w, Pos3::new(0, 0, 0)), 5);
    assert_eq!(face_count(&w, Pos3::new(1, 0, 0)), 5);
    w.destroy_at_global_pos(Pos3::new(16, 4, 4));
    assert_eq!(w.block_at_global_pos(Pos3::new(16, 4, 4)), AIR);
    assert_eq!(face_count(&w, Pos3::new(0, 0, 0)), 6);
    assert_eq!(face_count(&w, Pos3::new(1, 0, 0)), 0);
    w.place_at_global_pos(Pos3::new(16, 4, 4), GLASS);
    assert_eq!(face_count(&w, Pos3::new(0, 0, 0)), 6);
    assert_eq!(face_count(&w, Pos3::new(1, 0, 0)), 5);
}

#[test]
fn lookups_outside_loaded_chunks_are_air() {
    let mut g = empty_grid();
    g[idx(2, 3, 4)] = STONE;
    let mut w = world_with(g);
    assert_eq!(w.block_at_global_pos(Pos3::new(2, 3, 4)), STONE);
    assert!(w.collision_at_world_pos(Pos3::new(2, 3, 4)));
    assert_eq!(w.block_at_global_pos(Pos3::new(-14, 3, 4)), AIR);
    assert!(!w.collision_at_world_pos(Pos3::new(2, 3, -1)));
    w.place_at_global_pos(Pos3::new(-1, 0, 0), STONE);
    assert_eq!(w.block_at_global_pos(Pos3::new(-1, 0, 0)), AIR);
    assert!(w.chunk_mesh(&Pos3::new(-1, 0, 0)).is_none());
}

#[test]
fn negative_chunks_are_addressed() {
    let mut w = World::new();
    w.chunk_from_block_array(Pos3::new(-1, -1, -1), empty_grid());
    w.place_at_global_pos(Pos3::new(-1, -16, -5), STONE);
    assert_eq!(w.block_at_global_pos(Pos3::new(-1, -16, -5)), STONE);
    let (c, _) = chunk_and_block_index(&Pos3::new(-1, -16, -5));
    assert_eq!(c, Pos3::new(-1, -1, -1));
    assert_eq!(face_count(&w, c), 6);
    assert_eq!(w.chunk_coords(), vec![Pos3::new(-1, -1, -1)]);
}

#[test]
fn replacing_a_chunk_keeps_one_entry() {
    let mut w = World::new();
    w.chunk_from_block_array(Pos3::new(0, 0, 0), empty_grid());
    let mut g = empty_grid();
    g[0] = STONE;
    w.chunk_from_block_array(Pos3::new(0, 0, 0), g);
    assert_eq!(w.chunk_coords().len(), 1);
    assert_eq!(w.block_at_global_pos(Pos3::new(0, 0, 0)), STONE);
}

#[test]
fn terrain_columns_are_banded() {
    let cols = vec![Column { surface: 5, stone_top: 3 }; 256];
    let g = gen_terrain(&Pos3::new(0, 0, 0), &cols);
    assert_eq!(g.len(), 4096);
    assert_eq!(g[idx(7, 6, 7)], AIR);
    assert_eq!(g[idx(7, 5, 7)], 2);
    assert_eq!(g[idx(7, 4, 7)], 3);
    assert_eq!(g[idx(7, 3, 7)], 3);
    assert_eq!(g[idx(7, 2, 7)], STONE);
    assert_eq!(g[idx(0, 0, 15)], STONE);
    let high = gen_terrain(&Pos3::new(0, 1, 0), &cols);
    assert!(high.iter().all(|b| *b == AIR));
}

#[test]
fn tree_grows_inside_the_chunk() {
    let mut w = World::new();
    let mut chunk = Chunk::from_blocks(empty_grid(), Pos3::new(0, 0, 0));
    w.place_tree(Local3::new(5, 1, 5), &mut chunk);
    assert_eq!(chunk.block_at_chunk_pos(&Local3::new(5, 1, 5)), 3);
    for y in 2..6 {
        assert_eq!(chunk.block_at_chunk_pos(&Local3::new(5, y, 5)), 9);
    }
    assert_eq!(chunk.block_at_chunk_pos(&Local3::new(4, 4, 6)), 11);
    assert_eq!(chunk.block_at_chunk_pos(&Local3::new(5, 6, 5)), 11);
    assert_eq!(chunk.block_at_chunk_pos(&Local3::new(4, 6, 4)), AIR);
    assert_eq!(chunk.block_at_chunk_pos(&Local3::new(4, 6, 5)), 11);
    assert_eq!(chunk.block_at_chunk_pos(&Local3::new(5, 7, 5)), AIR);
    let mut edge = Chunk::from_blocks(empty_grid(), Pos3::new(0, 0, 0));
    w.place_tree(Local3::new(0, 1, 5), &mut edge);
    assert_eq!(edge.block_at_chunk_pos(&Local3::new(0, 1, 5)), AIR);
}
