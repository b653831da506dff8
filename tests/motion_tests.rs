use blockworld::collision::{point_vs_rect, push_out, rect_vs_rect, Rect3};
use blockworld::coords::Pos3;
use blockworld::inventory::Inventory;
use blockworld::player::{Heading, MoveDir, Player};
use blockworld::raycast::{dda, place_target, RayHit, UNITS};
use blockworld::world::World;

const STONE: usize = 1;

fn idx(x: usize, y: usize, z: usize) -> usize {
    x * 256 + y * 16 + z
}

fn world_with(grid: Vec<usize>) -> World {
    let mut w = World::new();
    w.chunk_from_block_array(Pos3::new(0, 0, 0), grid);
    w
}

fn slab_world() -> World {
    let mut g = vec![0; 4096];
    for x in 0..16 {
        for y in 0..4 {
            for z in 0..16 {
                g[idx(x, y, z)] = STONE;
            }
        }
    }
    world_with(g)
}

fn units(blocks: f64) -> i64 {
    (blocks * UNITS as f64) as i64
}

fn hit_distance(start: &Pos3, dir: &Pos3, hit: &RayHit) -> f64 {
    let len = ((dir.x * dir.x + dir.y * dir.y + dir.z * dir.z) as f64).sqrt();
    let t = hit.t_num as f64 / hit.t_den as f64;
    let _ = start;
    t * len / UNITS as f64
}

#[test]
fn ray_without_blocks_misses() {
    let w = world_with(vec![0; 4096]);
    let start = Pos3::new(units(8.5), units(8.5), units(8.5));
    assert_eq!(dda(&w, &start, &Pos3::new(3, -2, 1), units(6.0)), None);
    assert_eq!(dda(&w, &start, &Pos3::new(0, 0, -1), units(6.0)), None);
}

#[test]
fn ray_beyond_max_distance_misses() {
    let mut g = vec![0; 4096];
    g[idx(15, 8, 8)] = STONE;
    let w = world_with(g);
    let start = Pos3::new(units(2.5), units(8.5), units(8.5));
    assert_eq!(dda(&w, &start, &Pos3::new(1, 0, 0), units(6.0)), None);
    let hit = dda(&w, &start, &Pos3::new(1, 0, 0), units(13.0)).unwrap();
    assert_eq!(hit.voxel, Pos3::new(15, 8, 8));
}

#[test]
fn ray_along_an_axis_hits_the_block() {
    let mut g = vec![0; 4096];
    g[idx(3, 0, 0)] = STONE;
    let w = world_with(g);
    let start = Pos3::new(units(0.5), units(0.5), units(0.5));
    let dir = Pos3::new(1, 0, 0);
    let hit = dda(&w, &start, &dir, units(6.0)).unwrap();
    assert_eq!(hit.voxel, Pos3::new(3, 0, 0));
    assert_eq!((hit.t_num, hit.t_den), (2560, 1));
    let d = hit_distance(&start, &dir, &hit);
    assert!((d - 2.5).abs() < 1.0);
}

#[test]
fn diagonal_ray_hits_within_one_step() {
    let mut g = vec![0; 4096];
    g[idx(6, 5, 6)] = STONE;
    let w = world_with(g);
    let start = Pos3::new(units(2.5), units(5.5), units(2.5));
    let dir = Pos3::new(1, 0, 1);
    let hit = dda(&w, &start, &dir, units(8.0)).unwrap();
    assert_eq!(hit.voxel, Pos3::new(6, 5, 6));
    let d = hit_distance(&start, &dir, &hit);
    let expected = (2.0f64 * 3.5 * 3.5).sqrt();
    assert!((d - expected).abs() <= 2.0f64.sqrt());
}

#[test]
fn destroying_the_targeted_block_exposes_its_neighbours() {
    let mut g = vec![0; 4096];
    for x in 4..7 {
        for y in 3..6 {
            for z in 4..7 {
                g[idx(x, y, z)] = STONE;
            }
        }
    }
    let mut w = world_with(g);
    let c = Pos3::new(0, 0, 0);
    let before = w.chunk_mesh(&c).unwrap().len() * 6;
    assert_eq!(before, 54 * 6);
    let start = Pos3::new(units(5.5), units(10.5), units(5.5));
    let dir = Pos3::new(0, -1, 0);
    let hit = dda(&w, &start, &dir, units(6.0)).unwrap();
    assert_eq!(hit.voxel, Pos3::new(5, 5, 5));
    assert!((hit_distance(&start, &dir, &hit) - 4.5).abs() < 1e-9);
    w.destroy_at_global_pos(hit.voxel);
    assert_eq!(w.block_at_global_pos(Pos3::new(5, 5, 5)), 0);
    let after = w.chunk_mesh(&c).unwrap().len() * 6;
    assert_eq!(after, before + (5 - 1) * 6);
}

#[test]
fn boxes_overlap_only_through_interiors() {
    let a = Rect3 { pos: Pos3::new(0, 0, 0), size: Pos3::new(10, 10, 10) };
    let b = Rect3 { pos: Pos3::new(5, 5, 5), size: Pos3::new(10, 10, 10) };
    let c = Rect3 { pos: Pos3::new(10, 0, 0), size: Pos3::new(10, 10, 10) };
    assert!(rect_vs_rect(&a, &b));
    assert!(!rect_vs_rect(&a, &c));
    assert!(point_vs_rect(&Pos3::new(10, 10, 0), &a));
    assert!(!point_vs_rect(&Pos3::new(11, 10, 0), &a));
}

#[test]
fn push_out_uses_the_smaller_depth() {
    let block = Rect3 { pos: Pos3::new(0, 0, 0), size: Pos3::new(1024, 1024, 1024) };
    let inside = Rect3 { pos: Pos3::new(100, 200, 300), size: Pos3::new(256, 256, 256) };
    let t = push_out(&inside, &block, 0);
    assert_eq!(t, -356);
    let moved = Rect3 { pos: Pos3::new(100 + t, 200, 300), ..inside };
    assert!(!rect_vs_rect(&moved, &block));
    let t = push_out(&inside, &block, 1);
    assert_eq!(t, -456);
    let high = Rect3 { pos: Pos3::new(700, 900, 300), size: Pos3::new(256, 256, 256) };
    assert_eq!(push_out(&high, &block, 1), 124);
    assert_eq!(push_out(&high, &block, 0), 324);
    let apart = Rect3 { pos: Pos3::new(2000, 0, 0), size: Pos3::new(256, 256, 256) };
    assert_eq!(push_out(&apart, &block, 0), 0);
}

#[test]
fn dropped_body_comes_to_rest_on_the_slab() {
    let w = slab_world();
    let mut p = Player::new(Pos3::new(units(8.5), units(10.0), units(8.5)));
    let heading = Heading { x: 0, z: 1024 };
    for _ in 0..300 {
        p.update(&w, 16, heading);
    }
    assert_eq!(p.position.y, 4 * 1024);
    assert_eq!(p.position.x, units(8.5));
    assert!(p.grounded);
    assert_eq!(p.fall_speed, 0);
}

#[test]
fn body_walks_along_its_heading() {
    let w = slab_world();
    let mut p = Player::new(Pos3::new(units(8.5), 4 * 1024, units(4.5)));
    let heading = Heading { x: 0, z: 1024 };
    p.update(&w, 16, heading);
    assert!(p.grounded);
    p.move_direction(MoveDir::Forward);
    p.update(&w, 100, heading);
    assert_eq!(p.position.z, units(4.5) + 512);
    assert_eq!(p.position.y, 4 * 1024);
    p.stop_move_direction(MoveDir::Forward);
    p.move_direction(MoveDir::Right);
    p.update(&w, 100, heading);
    assert_eq!(p.position.x, units(8.5) + 512);
    p.stop_move_direction(MoveDir::Right);
    let before = p.position;
    p.update(&w, 100, heading);
    assert_eq!(p.position, before);
}

#[test]
fn body_is_stopped_by_a_wall() {
    let mut g = vec![0; 4096];
    for x in 0..16 {
        for z in 0..16 {
            g[idx(x, 0, z)] = STONE;
        }
    }
    for y in 1..4 {
        for x in 0..16 {
            g[idx(x, y, 8)] = STONE;
        }
    }
    let w = world_with(g);
    let mut p = Player::new(Pos3::new(units(5.5), 1024, units(7.5)));
    let heading = Heading { x: 0, z: 1024 };
    p.move_direction(MoveDir::Forward);
    for _ in 0..20 {
        p.update(&w, 50, heading);
    }
    assert_eq!(p.position.z, 8 * 1024 - p.half_width);
    assert_eq!(p.position.y, 1024);
}

#[test]
fn inventory_stacks_and_consumes() {
    let mut inv = Inventory::new();
    assert!(inv.items.iter().all(|s| s.is_none()));
    inv.add_to_inventory(4);
    inv.add_to_inventory(4);
    inv.add_to_inventory(6);
    assert_eq!(inv.items[0], Some((4, 2)));
    assert_eq!(inv.items[1], Some((6, 1)));
    assert_eq!(inv.consume_currently_selected(), Some(4));
    assert_eq!(inv.items[0], Some((4, 1)));
    assert_eq!(inv.consume_currently_selected(), Some(4));
    assert_eq!(inv.items[0], None);
    assert_eq!(inv.consume_currently_selected(), None);
    inv.selected = 1;
    assert_eq!(inv.consume_currently_selected(), Some(6));
    assert_eq!(inv.items[1], None);
}

#[test]
fn full_inventory_ignores_new_kinds() {
    let mut inv = Inventory::new();
    for id in 1..10 {
        inv.add_to_inventory(id);
    }
    inv.add_to_inventory(11);
    assert!(inv.items.iter().all(|s| s.map_or(false, |(id, _)| id != 11)));
    inv.add_to_inventory(3);
    assert_eq!(inv.items[2], Some((3, 2)));
}

#[test]
fn placing_goes_in_front_of_the_struck_face() {
    let mut g = vec![0; 4096];
    g[idx(5, 5, 5)] = STONE;
    g[idx(9, 2, 4)] = STONE;
    let w = world_with(g);
    let start = Pos3::new(units(5.5), units(10.5), units(5.5));
    let dir = Pos3::new(0, -1, 0);
    let hit = dda(&w, &start, &dir, units(6.0)).unwrap();
    assert_eq!(place_target(&start, &dir, &hit), Pos3::new(5, 6, 5));
    let start = Pos3::new(units(2.5), units(2.5), units(4.5));
    let dir = Pos3::new(1, 0, 0);
    let hit = dda(&w, &start, &dir, units(8.0)).unwrap();
    assert_eq!(hit.voxel, Pos3::new(9, 2, 4));
    assert_eq!(place_target(&start, &dir, &hit), Pos3::new(8, 2, 4));
}

#[test]
fn rays_pass_through_flora() {
    let mut g = vec![0; 4096];
    g[idx(3, 0, 0)] = 7;
    g[idx(5, 0, 0)] = STONE;
    let w = world_with(g);
    assert!(!w.collision_at_world_pos(Pos3::new(3, 0, 0)));
    assert!(w.collision_at_world_pos(Pos3::new(5, 0, 0)));
    let start = Pos3::new(units(0.5), units(0.5), units(0.5));
    let hit = dda(&w, &start, &Pos3::new(1, 0, 0), units(6.0)).unwrap();
    assert_eq!(hit.voxel, Pos3::new(5, 0, 0));
}

#[test]
fn rays_of_no_length_miss() {
    let mut g = vec![0; 4096];
    g[idx(3, 0, 0)] = STONE;
    let w = world_with(g);
    let start = Pos3::new(3 * 1024, 512, 512);
    assert_eq!(dda(&w, &start, &Pos3::new(1, 0, 0), 0), None);
    assert_eq!(dda(&w, &start, &Pos3::new(1, 0, 0), -5), None);
    let before = Pos3::new(2 * 1024 + 512, 512, 512);
    assert_eq!(dda(&w, &before, &Pos3::new(1, 0, 0), 512), None);
    assert_eq!(dda(&w, &before, &Pos3::new(1, 0, 0), 513).unwrap().voxel, Pos3::new(3, 0, 0));
}

#[test]
fn ground_flag_reads_the_cell_below_the_feet_cell() {
    let w = slab_world();
    let mut p = Player::new(Pos3::new(units(8.5), units(4.5), units(8.5)));
    p.update(&w, 16, Heading { x: 0, z: 1024 });
    assert!(p.grounded);
    assert!(p.fall_speed > 0);
    assert!(p.position.y < units(4.5));
    let mut high = Player::new(Pos3::new(units(8.5), units(5.5), units(8.5)));
    high.update(&w, 16, Heading { x: 0, z: 1024 });
    assert!(!high.grounded);
}
