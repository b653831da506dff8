use vstd::prelude::*;
use crate::block::{block, is_solid};
use crate::collision::{
    box_ok, lemma_push_out_bound, lemma_push_out_separates, overlaps, push_out, push_out_spec, shifted, Rect3,
};
use crate::coords::{floor_div, Pos3};
use crate::raycast::{comp, with_comp, Triple, UNITS};
use crate::world::{block_at, Grids, World};

verus! {

/// Downward acceleration, in units per second squared.
pub const GRAVITY: i64 = 20480;

/// Highest falling speed, in units per second.
pub const TERMINAL_SPEED: i64 = 51200;

/// Largest magnitude of a body coordinate accepted by `update`, in units.
pub const POSITION_MAX: i64 = 1125899906842624;

/// Largest walking speed, in units per second.
pub const SPEED_MAX: i64 = 1048576;

/// Longest frame `update` integrates, in milliseconds.
pub const FRAME_MS_MAX: i64 = 1000;

/// Number of cells tested around a body per axis move: three columns, four layers, three rows.
pub const SCAN_CELLS: usize = 36;

/// A movement input that can be held.
#[derive(Clone, Copy, PartialEq, Eq, Structural, Debug)]
pub enum MoveDir {
    Forward,
    Back,
    Left,
    Right,
    Up,
}

/// Horizontal facing of the body: a direction in the x-z plane, scaled so that its length
/// is about `UNITS`.
#[derive(Clone, Copy, PartialEq, Eq, Structural, Debug)]
pub struct Heading {
    pub x: i64,
    pub z: i64,
}

/// A moving body: the centre of its feet (in units), its box (half-width and height, in
/// units), its speeds, and which movement inputs are held.
#[derive(Clone, Copy, PartialEq, Eq, Structural, Debug)]
pub struct Player {
    pub position: Pos3,
    pub move_speed: i64,
    pub half_width: i64,
    pub height: i64,
    pub fall_speed: i64,
    pub grounded: bool,
    pub forward: bool,
    pub back: bool,
    pub left: bool,
    pub right: bool,
    pub up: bool,
}

/// The box of a body whose feet are centred at `p`.
pub open spec fn body_box(p: Triple, hw: int, h: int) -> Rect3 {
    Rect3 {
        pos: Pos3 { x: (p.0 - hw) as i64, y: p.1 as i64, z: (p.2 - hw) as i64 },
        size: Pos3 { x: (2 * hw) as i64, y: h as i64, z: (2 * hw) as i64 },
    }
}

/// The box of voxel `c`.
pub open spec fn cell_box(c: Triple) -> Rect3 {
    Rect3 {
        pos: Pos3 { x: (c.0 * UNITS) as i64, y: (c.1 * UNITS) as i64, z: (c.2 * UNITS) as i64 },
        size: Pos3 { x: UNITS, y: UNITS, z: UNITS },
    }
}

/// The voxel holding a point given in units.
pub open spec fn voxel_of(p: Triple) -> Triple {
    (p.0 / UNITS as int, p.1 / UNITS as int, p.2 / UNITS as int)
}

/// The `i`-th cell tested around voxel `base`: x from one below to one above, y from one
/// below to two above, z from one below to one above, x outermost.
pub open spec fn scan_cell(base: Triple, i: int) -> Triple {
    (base.0 - 1 + i / 12, base.1 - 1 + (i / 3) % 4, base.2 - 1 + i % 3)
}

/// Feet position after the first `n` scanned cells have pushed the body out along axis `a`,
/// each solid one by the resolving displacement of the box as it stands then.
pub open spec fn resolve_upto(g: Grids, p: Triple, hw: int, h: int, a: int, base: Triple, n: int) -> Triple
    decreases n,
{
    if n <= 0 {
        p
    } else {
        let q = resolve_upto(g, p, hw, h, a, base, n - 1);
        let c = scan_cell(base, n - 1);
        if is_solid(block_at(g, c) as int) {
            with_comp(q, a, comp(q, a) + push_out_spec(body_box(q, hw, h), cell_box(c), a))
        } else {
            q
        }
    }
}

/// Feet position after resolving a move along axis `a` that ended at `p`.
pub open spec fn resolve_axis(g: Grids, p: Triple, hw: int, h: int, a: int) -> Triple {
    resolve_upto(g, p, hw, h, a, voxel_of(p), SCAN_CELLS as int)
}

/// Whether the cell one below the feet' cell is solid: the body's ground flag.
pub open spec fn ground_below(g: Grids, p: Triple) -> bool {
    let v = voxel_of(p);
    is_solid(block_at(g, (v.0, v.1 - 1, v.2)) as int)
}

/// Whether the feet touch a solid cell: the cell holding the point just below them is solid.
/// A body so supported stops falling.
pub open spec fn supported(g: Grids, p: Triple) -> bool {
    is_solid(block_at(g, voxel_of((p.0, p.1 - 1, p.2))) as int)
}

pub open spec fn b2i(b: bool) -> int {
    if b {
        1
    } else {
        0
    }
}

/// Held inputs as a direction: right minus left, up, forward minus back.
pub open spec fn intent(pl: Player) -> Triple {
    (b2i(pl.right) - b2i(pl.left), b2i(pl.up), b2i(pl.forward) - b2i(pl.back))
}

/// Falling speed for the next frame: none on the ground, else accelerated up to the limit.
pub open spec fn next_fall(fall: int, grounded: bool, dt: int) -> int {
    if grounded {
        0
    } else if fall + GRAVITY * dt / 1000 < TERMINAL_SPEED {
        fall + GRAVITY * dt / 1000
    } else {
        TERMINAL_SPEED as int
    }
}

/// Displacement of one frame: walking along the heading (forward) and its right-hand
/// perpendicular, flying up while `Up` is held, and falling.
pub open spec fn frame_delta(pl: Player, fall: int, dt: int, hd: Heading) -> Triple {
    let i = intent(pl);
    (
        pl.move_speed * dt * (hd.z * i.0 + hd.x * i.2) / (1000 * UNITS),
        (pl.move_speed * i.1 - fall) * dt / 1000,
        pl.move_speed * dt * (hd.z * i.2 - hd.x * i.0) / (1000 * UNITS),
    )
}

pub open spec fn moved(p: Triple, a: int, t: int) -> Triple {
    with_comp(p, a, comp(p, a) + t)
}

/// Feet position after one frame: move and resolve along x, then y, then z.
pub open spec fn frame_position(g: Grids, pl: Player, dt: int, hd: Heading) -> Triple {
    let fall = next_fall(pl.fall_speed as int, supported(g, pl.position@), dt);
    let d = frame_delta(pl, fall, dt, hd);
    let hw = pl.half_width as int;
    let h = pl.height as int;
    let after_x = resolve_axis(g, moved(pl.position@, 0, d.0), hw, h, 0);
    let after_y = resolve_axis(g, moved(after_x, 1, d.1), hw, h, 1);
    resolve_axis(g, moved(after_y, 2, d.2), hw, h, 2)
}

pub open spec fn coord_ok(v: int, bound: int) -> bool {
    -bound <= v <= bound
}

impl Player {
    /// Whether `update` accepts the body: coordinates, speeds and box within their bounds.
    pub open spec fn wf(&self) -> bool {
        &&& coord_ok(self.position.x as int, POSITION_MAX as int)
        &&& coord_ok(self.position.y as int, POSITION_MAX as int)
        &&& coord_ok(self.position.z as int, POSITION_MAX as int)
        &&& 0 <= self.move_speed <= SPEED_MAX
        &&& 0 <= self.half_width <= UNITS
        &&& 0 <= self.height <= 4 * UNITS
        &&& 0 <= self.fall_speed <= TERMINAL_SPEED
    }

    /// A body standing still at `position`: a box a quarter block wide and 1.8 blocks high,
    /// walking at five blocks per second.
    pub fn new(position: Pos3) -> (r: Player)
        ensures
            r.position == position,
            r.move_speed == 5 * UNITS,
            r.half_width == UNITS / 8,
            r.height == 1843,
            r.fall_speed == 0,
            !r.grounded,
            intent(r) == (0int, 0int, 0int),
            !r.forward && !r.back && !r.left && !r.right && !r.up,
    {
        Player {
            position,
            move_speed: 5 * UNITS,
            half_width: UNITS / 8,
            height: 1843,
            fall_speed: 0,
            grounded: false,
            forward: false,
            back: false,
            left: false,
            right: false,
            up: false,
        }
    }

    /// Starts holding a movement input.
    pub fn move_direction(&mut self, direction: MoveDir)
        ensures
            *final(self) == held(*old(self), direction, true),
    {
        match direction {
            MoveDir::Forward => self.forward = true,
            MoveDir::Back => self.back = true,
            MoveDir::Left => self.left = true,
            MoveDir::Right => self.right = true,
            MoveDir::Up => self.up = true,
        }
    }

    /// Stops holding a movement input.
    pub fn stop_move_direction(&mut self, direction: MoveDir)
        ensures
            *final(self) == held(*old(self), direction, false),
    {
        match direction {
            MoveDir::Forward => self.forward = false,
            MoveDir::Back => self.back = false,
            MoveDir::Left => self.left = false,
            MoveDir::Right => self.right = false,
            MoveDir::Up => self.up = false,
        }
    }
}

/// `pl` with input `d` held (`on`) or released.
pub open spec fn held(pl: Player, d: MoveDir, on: bool) -> Player {
    match d {
        MoveDir::Forward => Player { forward: on, ..pl },
        MoveDir::Back => Player { back: on, ..pl },
        MoveDir::Left => Player { left: on, ..pl },
        MoveDir::Right => Player { right: on, ..pl },
        MoveDir::Up => Player { up: on, ..pl },
    }
}

/// Slack allowed beyond `POSITION_MAX` for positions inside one frame.
pub const FRAME_SLACK: i64 = 16777216;

/// How far one axis resolution can move a body, in units.
pub const SCAN_REACH: i64 = 221184;

/// Moves the body out of every solid cell around it along axis `a`, one cell at a time.
#[verifier::rlimit(60)]
#[verifier::spinoff_prover]
fn resolve_axis_exec(world: &World, p: Pos3, hw: i64, h: i64, a: usize) -> (r: Pos3)
    requires
        world.wf(),
        coord_ok(p.x as int, POSITION_MAX + FRAME_SLACK),
        coord_ok(p.y as int, POSITION_MAX + FRAME_SLACK),
        coord_ok(p.z as int, POSITION_MAX + FRAME_SLACK),
        0 <= hw <= UNITS,
        0 <= h <= 4 * UNITS,
        a < 3,
    ensures
        r@ == resolve_axis(world@, p@, hw as int, h as int, a as int),
        a != 0 ==> r.x == p.x,
        a != 1 ==> r.y == p.y,
        a != 2 ==> r.z == p.z,
        -SCAN_REACH <= r.x - p.x <= SCAN_REACH,
        -SCAN_REACH <= r.y - p.y <= SCAN_REACH,
        -SCAN_REACH <= r.z - p.z <= SCAN_REACH,
{
    let base = Pos3 { x: floor_div(p.x, UNITS), y: floor_div(p.y, UNITS), z: floor_div(p.z, UNITS) };
    let mut q = p;
    let mut i: usize = 0;
    while i < SCAN_CELLS
        invariant
            world.wf(),
            i <= SCAN_CELLS,
            base@ == voxel_of(p@),
            coord_ok(p.x as int, POSITION_MAX + FRAME_SLACK),
            coord_ok(p.y as int, POSITION_MAX + FRAME_SLACK),
            coord_ok(p.z as int, POSITION_MAX + FRAME_SLACK),
            0 <= hw <= UNITS,
            0 <= h <= 4 * UNITS,
            a < 3,
            q@ == resolve_upto(world@, p@, hw as int, h as int, a as int, base@, i as int),
            a != 0 ==> q.x == p.x,
            a != 1 ==> q.y == p.y,
            a != 2 ==> q.z == p.z,
            -(i as int) * 6 * UNITS <= q.x - p.x <= (i as int) * 6 * UNITS,
            -(i as int) * 6 * UNITS <= q.y - p.y <= (i as int) * 6 * UNITS,
            -(i as int) * 6 * UNITS <= q.z - p.z <= (i as int) * 6 * UNITS,
        decreases SCAN_CELLS - i,
    {
        let c = Pos3 {
            x: base.x - 1 + (i / 12) as i64,
            y: base.y - 1 + ((i / 3) % 4) as i64,
            z: base.z - 1 + (i % 3) as i64,
        };
        assert(c@ == scan_cell(base@, i as int));
        let id = world.block_at_global_pos(c);
        if block(id).solid {
            let bx = Rect3 {
                pos: Pos3 { x: q.x - hw, y: q.y, z: q.z - hw },
                size: Pos3 { x: 2 * hw, y: h, z: 2 * hw },
            };
            let cb = Rect3 {
                pos: Pos3 { x: c.x * UNITS, y: c.y * UNITS, z: c.z * UNITS },
                size: Pos3 { x: UNITS, y: UNITS, z: UNITS },
            };
            assert(bx == body_box(q@, hw as int, h as int));
            assert(cb == cell_box(c@));
            proof {
                lemma_push_out_bound(bx, cb, a as int);
            }
            let t = push_out(&bx, &cb, a);
            q = if a == 0 {
                Pos3 { x: q.x + t, ..q }
            } else if a == 1 {
                Pos3 { y: q.y + t, ..q }
            } else {
                Pos3 { z: q.z + t, ..q }
            };
        }
        i = i + 1;
    }
    q
}

impl Player {
    /// Advances the body by one frame of `delta_ms` milliseconds. The ground flag is whether
    /// the cell one below the feet' cell is solid; the falling speed resets while the feet
    /// touch a solid cell and otherwise grows by gravity up to the limit. The frame's displacement (walking along
    /// `heading` and its right-hand side, flying up, falling) is applied one axis at a time,
    /// x then y then z, and after each the body is pushed out of the solid cells around it
    /// along that axis only.
    #[verifier::spinoff_prover]
    pub fn update(&mut self, world: &World, delta_ms: i64, heading: Heading)
        requires
            old(self).wf(),
            world.wf(),
            0 <= delta_ms <= FRAME_MS_MAX,
            coord_ok(heading.x as int, UNITS as int),
            coord_ok(heading.z as int, UNITS as int),
        ensures
            final(self).position@ == frame_position(world@, *old(self), delta_ms as int, heading),
            final(self).grounded == ground_below(world@, old(self).position@),
            final(self).fall_speed == next_fall(
                old(self).fall_speed as int,
                supported(world@, old(self).position@),
                delta_ms as int,
            ),
            *final(self) == (Player {
                position: final(self).position,
                grounded: final(self).grounded,
                fall_speed: final(self).fall_speed,
                ..*old(self)
            }),
    {
        let ghost pl = *self;
        let p = self.position;
        let cx = floor_div(p.x, UNITS);
        let cz = floor_div(p.z, UNITS);
        let ground_cell = Pos3 { x: cx, y: floor_div(p.y, UNITS) - 1, z: cz };
        let gr = world.collision_at_world_pos(ground_cell);
        let touch_cell = Pos3 { x: cx, y: floor_div(p.y - 1, UNITS), z: cz };
        let support = world.collision_at_world_pos(touch_cell);
        let fall: i64 = if support {
            0
        } else {
            let f = self.fall_speed + floor_div(GRAVITY * delta_ms, 1000);
            if f < TERMINAL_SPEED {
                f
            } else {
                TERMINAL_SPEED
            }
        };
        assert(fall == next_fall(pl.fall_speed as int, support, delta_ms as int));
        let ix: i64 = (if self.right { 1 } else { 0 }) - (if self.left { 1 } else { 0 });
        let iy: i64 = if self.up { 1 } else { 0 };
        let iz: i64 = (if self.forward { 1 } else { 0 }) - (if self.back { 1 } else { 0 });
        let hx = heading.x;
        let hz = heading.z;
        let zx: i64 = if ix > 0 { hz } else if ix < 0 { -hz } else { 0 };
        let xz: i64 = if iz > 0 { hx } else if iz < 0 { -hx } else { 0 };
        let zz: i64 = if iz > 0 { hz } else if iz < 0 { -hz } else { 0 };
        let xx: i64 = if ix > 0 { hx } else if ix < 0 { -hx } else { 0 };
        proof {
            assert(zx == hz * ix) by (nonlinear_arith)
                requires
                    ix == 1 ==> zx == hz,
                    ix == -1 ==> zx == -hz,
                    ix == 0 ==> zx == 0,
                    -1 <= ix <= 1,
            ;
            assert(xz == hx * iz) by (nonlinear_arith)
                requires
                    iz == 1 ==> xz == hx,
                    iz == -1 ==> xz == -hx,
                    iz == 0 ==> xz == 0,
                    -1 <= iz <= 1,
            ;
            assert(zz == hz * iz) by (nonlinear_arith)
                requires
                    iz == 1 ==> zz == hz,
                    iz == -1 ==> zz == -hz,
                    iz == 0 ==> zz == 0,
                    -1 <= iz <= 1,
            ;
            assert(xx == hx * ix) by (nonlinear_arith)
                requires
                    ix == 1 ==> xx == hx,
                    ix == -1 ==> xx == -hx,
                    ix == 0 ==> xx == 0,
                    -1 <= ix <= 1,
            ;
        }
        let wx: i64 = zx + xz;
        let wz: i64 = zz - xx;
        let speed = self.move_speed;
        proof {
            assert(0 <= speed * delta_ms <= SPEED_MAX * FRAME_MS_MAX) by (nonlinear_arith)
                requires
                    0 <= speed <= SPEED_MAX,
                    0 <= delta_ms <= FRAME_MS_MAX,
            ;
            assert(0 <= GRAVITY * delta_ms <= GRAVITY * FRAME_MS_MAX) by (nonlinear_arith)
                requires
                    0 <= delta_ms <= FRAME_MS_MAX,
            ;
        }
        let sd = speed * delta_ms;
        proof {
            assert(-sd * 2048 <= sd * wx <= sd * 2048) by (nonlinear_arith)
                requires
                    0 <= sd,
                    -2048 <= wx <= 2048,
            ;
            assert(-sd * 2048 <= sd * wz <= sd * 2048) by (nonlinear_arith)
                requires
                    0 <= sd,
                    -2048 <= wz <= 2048,
            ;
            assert(-1100000000 <= (speed * iy - fall) * delta_ms <= 1100000000) by (nonlinear_arith)
                requires
                    0 <= speed <= SPEED_MAX,
                    0 <= fall <= TERMINAL_SPEED,
                    0 <= iy <= 1,
                    0 <= delta_ms <= 1000,
            ;
            assert(0 <= speed * iy <= speed) by (nonlinear_arith)
                requires
                    0 <= speed,
                    0 <= iy <= 1,
            ;
            assert((SPEED_MAX + TERMINAL_SPEED) * delta_ms <= (SPEED_MAX + TERMINAL_SPEED) * FRAME_MS_MAX) by (nonlinear_arith)
                requires
                    0 <= delta_ms <= FRAME_MS_MAX,
            ;
        }
        let dx = floor_div(sd * wx, 1000 * UNITS);
        let dy = floor_div((speed * iy - fall) * delta_ms, 1000);
        let dz = floor_div(sd * wz, 1000 * UNITS);
        proof {
            assert(frame_delta(pl, fall as int, delta_ms as int, heading) == (dx as int, dy as int, dz as int));
        }
        let after_x = resolve_axis_exec(world, Pos3 { x: p.x + dx, ..p }, self.half_width, self.height, 0);
        let after_y = resolve_axis_exec(world, Pos3 { y: after_x.y + dy, ..after_x }, self.half_width, self.height, 1);
        let after_z = resolve_axis_exec(world, Pos3 { z: after_y.z + dz, ..after_y }, self.half_width, self.height, 2);
        self.position = after_z;
        self.grounded = gr;
        self.fall_speed = fall;
    }
}

proof fn lemma_resolve_upto_single(g: Grids, p: Triple, hw: int, h: int, a: int, ic: int, n: int)
    requires
        0 <= ic < n <= SCAN_CELLS,
        forall|i: int| 0 <= i < SCAN_CELLS ==> (is_solid(block_at(g, #[trigger] scan_cell(voxel_of(p), i)) as int) <==> i == ic),
    ensures
        resolve_upto(g, p, hw, h, a, voxel_of(p), n) == moved(
            p,
            a,
            push_out_spec(body_box(p, hw, h), cell_box(scan_cell(voxel_of(p), ic)), a),
        ),
    decreases n,
{
    assert(resolve_upto(g, p, hw, h, a, voxel_of(p), ic) == p) by {
        lemma_resolve_upto_clear(g, p, hw, h, a, ic, ic);
    }
    if n > ic + 1 {
        lemma_resolve_upto_single(g, p, hw, h, a, ic, n - 1);
        assert(!is_solid(block_at(g, scan_cell(voxel_of(p), n - 1)) as int));
    }
}

proof fn lemma_resolve_upto_clear(g: Grids, p: Triple, hw: int, h: int, a: int, ic: int, n: int)
    requires
        0 <= n <= ic < SCAN_CELLS,
        forall|i: int| 0 <= i < SCAN_CELLS ==> (is_solid(block_at(g, #[trigger] scan_cell(voxel_of(p), i)) as int) <==> i == ic),
    ensures
        resolve_upto(g, p, hw, h, a, voxel_of(p), n) == p,
    decreases n,
{
    if n > 0 {
        lemma_resolve_upto_clear(g, p, hw, h, a, ic, n - 1);
        assert(!is_solid(block_at(g, scan_cell(voxel_of(p), n - 1)) as int));
    }
}

/// A body whose box overlaps one solid block, with no other solid block among the cells
/// tested around it, is moved along the axis by the resolving displacement of that block
/// alone, after which its box no longer overlaps the block.
pub proof fn lemma_resolve_single_block(g: Grids, p: Triple, hw: int, h: int, a: int, ic: int)
    requires
        0 <= a < 3,
        0 <= ic < SCAN_CELLS,
        0 <= hw <= UNITS,
        0 <= h <= 4 * UNITS,
        coord_ok(p.0, POSITION_MAX + FRAME_SLACK),
        coord_ok(p.1, POSITION_MAX + FRAME_SLACK),
        coord_ok(p.2, POSITION_MAX + FRAME_SLACK),
        forall|i: int| 0 <= i < SCAN_CELLS ==> (is_solid(block_at(g, #[trigger] scan_cell(voxel_of(p), i)) as int) <==> i == ic),
        overlaps(body_box(p, hw, h), cell_box(scan_cell(voxel_of(p), ic))),
    ensures
        resolve_axis(g, p, hw, h, a) == moved(
            p,
            a,
            push_out_spec(body_box(p, hw, h), cell_box(scan_cell(voxel_of(p), ic)), a),
        ),
        !overlaps(body_box(resolve_axis(g, p, hw, h, a), hw, h), cell_box(scan_cell(voxel_of(p), ic))),
{
    let c = scan_cell(voxel_of(p), ic);
    let bx = body_box(p, hw, h);
    let cb = cell_box(c);
    lemma_resolve_upto_single(g, p, hw, h, a, ic, SCAN_CELLS as int);
    assert(box_ok(bx));
    assert(box_ok(cb));
    lemma_push_out_separates(bx, cb, a);
    lemma_push_out_bound(bx, cb, a);
    let t = push_out_spec(bx, cb, a);
    assert(body_box(moved(p, a, t), hw, h) == shifted(bx, a, t));
}

proof fn lemma_resolve_upto_clear_all(g: Grids, p: Triple, hw: int, h: int, a: int, n: int)
    requires
        0 <= n <= SCAN_CELLS,
        0 <= a < 3,
        forall|i: int|
            0 <= i < SCAN_CELLS && is_solid(block_at(g, #[trigger] scan_cell(voxel_of(p), i)) as int) ==> !overlaps(
                body_box(p, hw, h),
                cell_box(scan_cell(voxel_of(p), i)),
            ),
    ensures
        resolve_upto(g, p, hw, h, a, voxel_of(p), n) == p,
    decreases n,
{
    if n > 0 {
        lemma_resolve_upto_clear_all(g, p, hw, h, a, n - 1);
        let c = scan_cell(voxel_of(p), n - 1);
        if is_solid(block_at(g, c) as int) {
            assert(push_out_spec(body_box(p, hw, h), cell_box(c), a) == 0);
            assert(with_comp(p, a, comp(p, a) + 0) == p);
        }
    }
}

/// A body whose feet touch a solid cell, with no input held and with its box clear of every
/// solid cell around it, stays where it is for the frame: no sinking, no drift.
pub proof fn lemma_resting_body_stays(g: Grids, pl: Player, dt: int, hd: Heading)
    requires
        supported(g, pl.position@),
        intent(pl) == (0int, 0int, 0int),
        forall|i: int|
            0 <= i < SCAN_CELLS && is_solid(block_at(g, #[trigger] scan_cell(voxel_of(pl.position@), i)) as int)
                ==> !overlaps(
                body_box(pl.position@, pl.half_width as int, pl.height as int),
                cell_box(scan_cell(voxel_of(pl.position@), i)),
            ),
    ensures
        frame_position(g, pl, dt, hd) == pl.position@,
{
    let p = pl.position@;
    let hw = pl.half_width as int;
    let h = pl.height as int;
    let i = intent(pl);
    assert(pl.move_speed * dt * (hd.z * i.0 + hd.x * i.2) == 0) by (nonlinear_arith)
        requires
            i.0 == 0,
            i.2 == 0,
    ;
    assert(pl.move_speed * dt * (hd.z * i.2 - hd.x * i.0) == 0) by (nonlinear_arith)
        requires
            i.0 == 0,
            i.2 == 0,
    ;
    assert((pl.move_speed * i.1 - 0) * dt == 0) by (nonlinear_arith)
        requires
            i.1 == 0,
    ;
    let d = frame_delta(pl, 0, dt, hd);
    assert(d == (0int, 0int, 0int));
    assert(moved(p, 0, 0) == p);
    assert(moved(p, 1, 0) == p);
    assert(moved(p, 2, 0) == p);
    lemma_resolve_upto_clear_all(g, p, hw, h, 0, SCAN_CELLS as int);
    lemma_resolve_upto_clear_all(g, p, hw, h, 1, SCAN_CELLS as int);
    lemma_resolve_upto_clear_all(g, p, hw, h, 2, SCAN_CELLS as int);
}

} // verus!
