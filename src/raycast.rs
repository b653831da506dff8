use vstd::prelude::*;
use crate::block::is_solid;
use crate::coords::{floor_div, Pos3};
use crate::world::{block_at, Grids, World};
use vstd::arithmetic::mul::lemma_mul_upper_bound;

verus! {

/// Fixed-point units per block: ray origins and distances are measured in these.
pub const UNITS: i64 = 1024;

/// Largest magnitude of a ray origin coordinate, in units.
pub const RAY_ORIGIN_MAX: i64 = 1152921504606846976;

/// Largest magnitude of a ray direction component.
pub const RAY_DIR_MAX: i64 = 1048576;

/// Largest ray length, in units.
pub const RAY_LENGTH_MAX: i64 = 1099511627776;

pub type Triple = (int, int, int);

/// Traversal state: the current voxel, and per axis the offset (in units, measured along
/// that axis from the origin) of the next voxel boundary the ray crosses.
pub type RayState = (Triple, Triple);

pub open spec fn comp(t: Triple, a: int) -> int {
    if a == 0 {
        t.0
    } else if a == 1 {
        t.1
    } else {
        t.2
    }
}

pub open spec fn with_comp(t: Triple, a: int, x: int) -> Triple {
    if a == 0 {
        (x, t.1, t.2)
    } else if a == 1 {
        (t.0, x, t.2)
    } else {
        (t.0, t.1, x)
    }
}

pub open spec fn abs(x: int) -> int {
    if x < 0 {
        -x
    } else {
        x
    }
}

pub open spec fn sgn(x: int) -> int {
    if x > 0 {
        1
    } else if x < 0 {
        -1
    } else {
        0
    }
}

pub open spec fn norm2(d: Triple) -> int {
    d.0 * d.0 + d.1 * d.1 + d.2 * d.2
}

/// Offset to the first boundary crossed along one axis from coordinate `s` in voxel `v`.
pub open spec fn first_boundary(s: int, v: int, d: int) -> int {
    if d > 0 {
        (v + 1) * UNITS - s
    } else {
        s - v * UNITS
    }
}

/// The voxel holding the origin, and the first boundaries.
pub open spec fn ray_start(s: Triple, d: Triple) -> RayState {
    let v = (s.0 / UNITS as int, s.1 / UNITS as int, s.2 / UNITS as int);
    (v, (first_boundary(s.0, v.0, d.0), first_boundary(s.1, v.1, d.1), first_boundary(s.2, v.2, d.2)))
}

/// Whether the ray reaches the next boundary of axis `a` strictly before that of axis `b`
/// (parametric lengths `n_a / |d_a|` compared without division).
pub open spec fn earlier(n: Triple, d: Triple, a: int, b: int) -> bool {
    comp(n, a) * abs(comp(d, b)) < comp(n, b) * abs(comp(d, a))
}

/// Axis of the nearest next boundary among the axes the ray moves along; ties go to the
/// earlier axis in x, y, z order.
pub open spec fn pick(n: Triple, d: Triple) -> int {
    let a = if d.0 != 0 {
        0
    } else if d.1 != 0 {
        1
    } else {
        2int
    };
    let b = if d.1 != 0 && a != 1 && earlier(n, d, 1, a) {
        1
    } else {
        a
    };
    if d.2 != 0 && b != 2 && earlier(n, d, 2, b) {
        2
    } else {
        b
    }
}

/// One traversal step: move into the neighbouring voxel across the nearest boundary.
pub open spec fn advance(st: RayState, d: Triple) -> RayState {
    let a = pick(st.1, d);
    (with_comp(st.0, a, comp(st.0, a) + sgn(comp(d, a))), with_comp(st.1, a, comp(st.1, a) + UNITS))
}

pub open spec fn ray_state(s: Triple, d: Triple, k: nat) -> RayState
    decreases k,
{
    if k == 0 {
        ray_start(s, d)
    } else {
        advance(ray_state(s, d, (k - 1) as nat), d)
    }
}

/// The `k`-th voxel the traversal enters (`k >= 1`).
pub open spec fn ray_voxel(s: Triple, d: Triple, k: nat) -> Triple {
    ray_state(s, d, k).0
}

/// The ray enters its `k`-th voxel at parameter `entry_num / entry_den` (the point
/// `s + d * entry_num / entry_den`).
pub open spec fn entry_num(s: Triple, d: Triple, k: nat) -> int {
    let st = ray_state(s, d, (k - 1) as nat);
    comp(st.1, pick(st.1, d))
}

pub open spec fn entry_den(s: Triple, d: Triple, k: nat) -> int {
    let st = ray_state(s, d, (k - 1) as nat);
    abs(comp(d, pick(st.1, d)))
}

/// Whether the `k`-th voxel is entered before the ray's length `m` is reached (strictly
/// closer to the origin than `m`; a ray of length zero or less reaches nothing).
pub open spec fn within(s: Triple, d: Triple, m: int, k: nat) -> bool {
    &&& m > 0
    &&& entry_num(s, d, k) * entry_num(s, d, k) * norm2(d) < m * m * (entry_den(s, d, k) * entry_den(s, d, k))
}

/// Whether the voxel stops rays: its block is solid.
pub open spec fn occupied(g: Grids, p: Triple) -> bool {
    is_solid(block_at(g, p) as int)
}

pub open spec fn ray_args_ok(s: Triple, d: Triple, m: int) -> bool {
    &&& d != (0int, 0int, 0int)
    &&& -RAY_ORIGIN_MAX <= s.0 <= RAY_ORIGIN_MAX
    &&& -RAY_ORIGIN_MAX <= s.1 <= RAY_ORIGIN_MAX
    &&& -RAY_ORIGIN_MAX <= s.2 <= RAY_ORIGIN_MAX
    &&& -RAY_DIR_MAX <= d.0 <= RAY_DIR_MAX
    &&& -RAY_DIR_MAX <= d.1 <= RAY_DIR_MAX
    &&& -RAY_DIR_MAX <= d.2 <= RAY_DIR_MAX
    &&& m <= RAY_LENGTH_MAX
}

/// What a cast returns: the first occupied voxel the traversal enters within the ray's
/// length, with the parameter at which it enters it; or nothing, when the traversal reaches
/// a voxel beyond the length without meeting an occupied one.
pub open spec fn cast_outcome(g: Grids, s: Triple, d: Triple, m: int, r: Option<RayHit>) -> bool {
    match r {
        Some(h) => exists|k: nat|
            {
                &&& k >= 1
                &&& #[trigger] ray_voxel(s, d, k) == h.voxel@
                &&& within(s, d, m, k)
                &&& occupied(g, h.voxel@)
                &&& h.t_num == entry_num(s, d, k)
                &&& h.t_den == entry_den(s, d, k)
                &&& forall|j: nat| 1 <= j < k ==> !occupied(g, #[trigger] ray_voxel(s, d, j))
            },
        None => exists|k: nat|
            {
                &&& k >= 1
                &&& !#[trigger] within(s, d, m, k)
                &&& forall|j: nat| 1 <= j < k ==> within(s, d, m, j) && !occupied(g, #[trigger] ray_voxel(s, d, j))
            },
    }
}

/// Bounds every hit of a ray of length `m` keeps.
pub open spec fn hit_ok(h: RayHit, m: int) -> bool {
    &&& -RAY_ORIGIN_MAX <= h.voxel.x <= RAY_ORIGIN_MAX
    &&& -RAY_ORIGIN_MAX <= h.voxel.y <= RAY_ORIGIN_MAX
    &&& -RAY_ORIGIN_MAX <= h.voxel.z <= RAY_ORIGIN_MAX
    &&& 0 <= h.t_num <= m
    &&& 1 <= h.t_den <= RAY_DIR_MAX
}

/// First occupied voxel along a ray, and where the ray enters it: the point
/// `origin + dir * t_num / t_den` (in units).
#[derive(Clone, Copy, PartialEq, Eq, Structural, Debug)]
pub struct RayHit {
    pub voxel: Pos3,
    pub t_num: i64,
    pub t_den: i64,
}

fn abs_exec(x: i64) -> (r: i64)
    requires
        -RAY_DIR_MAX <= x <= RAY_DIR_MAX,
    ensures
        r == abs(x as int),
{
    if x < 0 {
        -x
    } else {
        x
    }
}

/// `na / da < nb / db`, for positive denominators.
fn earlier_exec(na: i64, da: i64, nb: i64, db: i64) -> (r: bool)
    requires
        0 <= na <= RAY_LENGTH_MAX + UNITS,
        0 <= nb <= RAY_LENGTH_MAX + UNITS,
        0 <= da <= RAY_DIR_MAX,
        0 <= db <= RAY_DIR_MAX,
    ensures
        r == (na * db < nb * da),
{
    proof {
        assert(na * db <= (RAY_LENGTH_MAX + UNITS) * RAY_DIR_MAX) by (nonlinear_arith)
            requires
                0 <= na <= RAY_LENGTH_MAX + UNITS,
                0 <= db <= RAY_DIR_MAX,
        ;
        assert(nb * da <= (RAY_LENGTH_MAX + UNITS) * RAY_DIR_MAX) by (nonlinear_arith)
            requires
                0 <= nb <= RAY_LENGTH_MAX + UNITS,
                0 <= da <= RAY_DIR_MAX,
        ;
    }
    (na as i128) * (db as i128) < (nb as i128) * (da as i128)
}

/// Whether the boundary at offset `num` of an axis with `|d_a| = den` lies at least `m`
/// along a ray whose direction has squared length `dd`.
fn beyond(num: i64, den: i64, dd: i128, m: i64) -> (r: bool)
    requires
        0 <= num <= RAY_LENGTH_MAX + UNITS,
        0 <= den <= RAY_DIR_MAX,
        0 <= dd <= 3 * RAY_DIR_MAX * RAY_DIR_MAX,
        0 <= m <= RAY_LENGTH_MAX,
    ensures
        r == (num * num * dd >= m * m * (den * den)),
{
    proof {
        lemma_mul_upper_bound(num as int, 1099511628800, num as int, 1099511628800);
        lemma_mul_upper_bound(num * num, (1099511628800 * 1099511628800) as int, dd as int, 3298534883328);
        lemma_mul_upper_bound(m as int, 1099511627776, m as int, 1099511627776);
        lemma_mul_upper_bound(den as int, 1048576, den as int, 1048576);
        lemma_mul_upper_bound(m * m, (1099511627776 * 1099511627776) as int, den * den, (1048576 * 1048576) as int);
        assert(0 <= num * num) by (nonlinear_arith);
        assert(0 <= m * m) by (nonlinear_arith);
        assert(0 <= den * den) by (nonlinear_arith);
    }
    let nn = (num as i128) * (num as i128);
    let lhs = nn * dd;
    let mm = (m as i128) * (m as i128);
    let ee = (den as i128) * (den as i128);
    lhs >= mm * ee
}

pub open spec fn t3(a: [i64; 3]) -> Triple {
    (a@[0] as int, a@[1] as int, a@[2] as int)
}

fn pick_exec(n: &[i64; 3], d: &[i64; 3]) -> (r: usize)
    requires
        t3(*d) != (0int, 0int, 0int),
        forall|a: int| 0 <= a < 3 ==> 0 <= #[trigger] n@[a] <= RAY_LENGTH_MAX + UNITS,
        forall|a: int| 0 <= a < 3 ==> -RAY_DIR_MAX <= #[trigger] d@[a] <= RAY_DIR_MAX,
    ensures
        r as int == pick(t3(*n), t3(*d)),
        r < 3,
        d@[r as int] != 0,
{
    let a0: usize = if d[0] != 0 {
        0
    } else if d[1] != 0 {
        1
    } else {
        2
    };
    let a1: usize = if d[1] != 0 && a0 != 1 && earlier_exec(n[1], abs_exec(d[1]), n[a0], abs_exec(d[a0])) {
        1
    } else {
        a0
    };
    let a2: usize = if d[2] != 0 && a1 != 2 && earlier_exec(n[2], abs_exec(d[2]), n[a1], abs_exec(d[a1])) {
        2
    } else {
        a1
    };
    a2
}

proof fn lemma_within_bound(num: int, den: int, dd: int, m: int)
    requires
        0 <= num,
        1 <= den,
        den * den <= dd,
        0 <= m,
        num * num * dd <= m * m * (den * den),
    ensures
        num <= m,
{
    if num > m {
        assert(num * num > m * m) by (nonlinear_arith)
            requires
                num > m,
                m >= 0,
        ;
        assert(num * num * (den * den) > m * m * (den * den)) by (nonlinear_arith)
            requires
                num * num > m * m,
                den >= 1,
        ;
        assert(num * num * dd >= num * num * (den * den)) by (nonlinear_arith)
            requires
                den * den <= dd,
                num >= 0,
        ;
    }
}

/// Walks the voxels a ray passes through, in order of the distance at which it enters them
/// (grid traversal), and returns the first occupied one: the ray starts at `start` (in
/// units), runs along `dir` and ends `max_dist` units from its start. The voxel holding the
/// start is not tested. An axis along which `dir` does not move is never crossed.
#[verifier::rlimit(80)]
#[verifier::spinoff_prover]
pub fn dda(world: &World, start: &Pos3, dir: &Pos3, max_dist: i64) -> (r: Option<RayHit>)
    requires
        world.wf(),
        ray_args_ok(start@, dir@, max_dist as int),
    ensures
        cast_outcome(world@, start@, dir@, max_dist as int, r),
        r matches Some(h) ==> hit_ok(h, max_dist as int),
        max_dist <= 0 ==> r is None,
{
    if max_dist <= 0 {
        assert(!within(start@, dir@, max_dist as int, 1));
        return None;
    }
    let s: [i64; 3] = [start.x, start.y, start.z];
    let d: [i64; 3] = [dir.x, dir.y, dir.z];
    let mut v: [i64; 3] = [floor_div(s[0], UNITS), floor_div(s[1], UNITS), floor_div(s[2], UNITS)];
    let mut n: [i64; 3] = [0, 0, 0];
    let mut a: usize = 0;
    while a < 3
        invariant
            a <= 3,
            max_dist > 0,
            ray_args_ok(start@, dir@, max_dist as int),
            t3(s) == start@,
            t3(d) == dir@,
            forall|b: int| 0 <= b < 3 ==> #[trigger] v@[b] as int == s@[b] as int / UNITS as int,
            forall|b: int| 0 <= b < a ==> #[trigger] n@[b] as int == first_boundary(s@[b] as int, v@[b] as int, d@[b] as int),
            forall|b: int| 0 <= b < a ==> 0 <= #[trigger] n@[b] <= UNITS,
        decreases 3 - a,
    {
        assert(-RAY_ORIGIN_MAX <= s@[a as int] <= RAY_ORIGIN_MAX);
        let ghost q = v@[a as int] as int;
        assert(q * 1024 <= s@[a as int] < q * 1024 + 1024);
        if d[a] > 0 {
            n[a] = (v[a] + 1) * UNITS - s[a];
        } else {
            n[a] = s[a] - v[a] * UNITS;
        }
        a = a + 1;
    }
    proof {
        assert(dir@.0 * dir@.0 <= 1099511627776) by (nonlinear_arith)
            requires
                -1048576 <= dir@.0 <= 1048576,
        ;
        assert(dir@.1 * dir@.1 <= 1099511627776) by (nonlinear_arith)
            requires
                -1048576 <= dir@.1 <= 1048576,
        ;
        assert(dir@.2 * dir@.2 <= 1099511627776) by (nonlinear_arith)
            requires
                -1048576 <= dir@.2 <= 1048576,
        ;
        assert(0 <= dir@.0 * dir@.0) by (nonlinear_arith);
        assert(0 <= dir@.1 * dir@.1) by (nonlinear_arith);
        assert(0 <= dir@.2 * dir@.2) by (nonlinear_arith);
    }
    let dd: i128 = (d[0] as i128) * (d[0] as i128) + (d[1] as i128) * (d[1] as i128) + (d[2] as i128) * (d[2] as i128);
    let ghost mut k: nat = 0;
    assert((t3(v), t3(n)) == ray_state(start@, dir@, 0));
    loop
        invariant
            world.wf(),
            max_dist > 0,
            ray_args_ok(start@, dir@, max_dist as int),
            t3(s) == start@,
            t3(d) == dir@,
            dd == norm2(dir@),
            0 <= dd <= 3 * RAY_DIR_MAX * RAY_DIR_MAX,
            (t3(v), t3(n)) == ray_state(start@, dir@, k),
            forall|j: nat| 1 <= j <= k ==> #[trigger] within(start@, dir@, max_dist as int, j),
            forall|j: nat| 1 <= j <= k ==> !occupied(world@, #[trigger] ray_voxel(start@, dir@, j)),
            forall|b: int| 0 <= b < 3 && d@[b] > 0 ==> #[trigger] n@[b] as int == (v@[b] + 1) * UNITS - s@[b],
            forall|b: int| 0 <= b < 3 && d@[b] < 0 ==> #[trigger] n@[b] as int == s@[b] - v@[b] * UNITS,
            forall|b: int| 0 <= b < 3 && d@[b] == 0 ==> #[trigger] v@[b] as int == s@[b] as int / UNITS as int,
            forall|b: int| 0 <= b < 3 ==> 0 <= #[trigger] n@[b] <= max_dist + UNITS,
        decreases (if d@[0] != 0 {
            max_dist + UNITS - n@[0]
        } else {
            0
        }) + (if d@[1] != 0 {
            max_dist + UNITS - n@[1]
        } else {
            0
        }) + (if d@[2] != 0 {
            max_dist + UNITS - n@[2]
        } else {
            0
        }),
    {
        let a = pick_exec(&n, &d);
        let num = n[a];
        let den = abs_exec(d[a]);
        if beyond(num, den, dd, max_dist) {
            proof {
                assert(!within(start@, dir@, max_dist as int, k + 1));
            }
            return None;
        }
        proof {
            assert(den * den <= dd) by {
                assert(0 <= dir@.0 * dir@.0) by (nonlinear_arith);
                assert(0 <= dir@.1 * dir@.1) by (nonlinear_arith);
                assert(0 <= dir@.2 * dir@.2) by (nonlinear_arith);
                assert(den * den == d@[a as int] * d@[a as int]) by (nonlinear_arith)
                    requires
                        den == d@[a as int] || den == -d@[a as int],
                ;
            }
            lemma_within_bound(num as int, den as int, dd as int, max_dist as int);
        }
        if d[a] > 0 {
            v[a] = v[a] + 1;
        } else {
            v[a] = v[a] - 1;
        }
        let p = Pos3 { x: v[0], y: v[1], z: v[2] };
        let hit = world.collision_at_world_pos(p);
        n[a] = num + UNITS;
        proof {
            assert((t3(v), t3(n)) == ray_state(start@, dir@, k + 1));
            assert(entry_num(start@, dir@, k + 1) == num);
            assert(entry_den(start@, dir@, k + 1) == den);
            assert(within(start@, dir@, max_dist as int, k + 1));
        }
        if hit {
            proof {
                assert(ray_voxel(start@, dir@, k + 1) == p@);
            }
            assert(hit_ok(RayHit { voxel: p, t_num: num, t_den: den }, max_dist as int));
            return Some(RayHit { voxel: p, t_num: num, t_den: den });
        }
        proof {
            let k0 = k;
            k = (k + 1) as nat;
            assert(!occupied(world@, ray_voxel(start@, dir@, k)));
            assert(within(start@, dir@, max_dist as int, k));
            assert forall|j: nat| 1 <= j <= k implies #[trigger] within(start@, dir@, max_dist as int, j) by {
                if j < k {
                    assert(1 <= j <= k0);
                }
            }
            assert forall|j: nat| 1 <= j <= k implies !occupied(world@, #[trigger] ray_voxel(start@, dir@, j)) by {
                if j < k {
                    assert(1 <= j <= k0);
                }
            }
        }
    }
}

/// `n1 / d1 <= n2 / d2` and `n2 / d2 <= n3 / d3` give `n1 / d1 <= n3 / d3`, for positive
/// denominators.
proof fn lemma_ratio_trans(n1: int, d1: int, n2: int, d2: int, n3: int, d3: int)
    requires
        d1 > 0,
        d2 > 0,
        d3 > 0,
        n1 * d2 <= n2 * d1,
        n2 * d3 <= n3 * d2,
    ensures
        n1 * d3 <= n3 * d1,
{
    assert(n1 * d2 * d3 <= n2 * d1 * d3) by (nonlinear_arith)
        requires
            n1 * d2 <= n2 * d1,
            d3 > 0,
    ;
    assert(n2 * d3 * d1 <= n3 * d2 * d1) by (nonlinear_arith)
        requires
            n2 * d3 <= n3 * d2,
            d1 > 0,
    ;
    assert(n1 * d3 * d2 <= n3 * d1 * d2) by (nonlinear_arith)
        requires
            n1 * d2 * d3 <= n2 * d1 * d3,
            n2 * d3 * d1 <= n3 * d2 * d1,
    ;
    assert(n1 * d3 <= n3 * d1) by (nonlinear_arith)
        requires
            n1 * d3 * d2 <= n3 * d1 * d2,
            d2 > 0,
    ;
}

/// Whether the next boundary of axis `b` is not before that of axis `a`.
pub open spec fn not_before(n: Triple, d: Triple, a: int, b: int) -> bool {
    comp(n, b) * abs(comp(d, a)) >= comp(n, a) * abs(comp(d, b))
}

/// The picked axis moves, and no moving axis reaches its next boundary before it.
proof fn lemma_pick_min(n: Triple, d: Triple)
    requires
        d != (0int, 0int, 0int),
    ensures
        0 <= pick(n, d) < 3,
        comp(d, pick(n, d)) != 0,
        d.0 != 0 ==> not_before(n, d, pick(n, d), 0),
        d.1 != 0 ==> not_before(n, d, pick(n, d), 1),
        d.2 != 0 ==> not_before(n, d, pick(n, d), 2),
{
    let a = if d.0 != 0 {
        0
    } else if d.1 != 0 {
        1
    } else {
        2int
    };
    let b = if d.1 != 0 && a != 1 && earlier(n, d, 1, a) {
        1
    } else {
        a
    };
    let c = pick(n, d);
    assert(not_before(n, d, c, c)) by (nonlinear_arith);
    assert(not_before(n, d, b, b)) by (nonlinear_arith);
    // b is not after a, and not after axis 1 when that moves
    if d.1 != 0 && a != 1 {
        if b == 1 {
            assert(not_before(n, d, b, a));
        } else {
            assert(not_before(n, d, b, 1));
        }
    }
    assert forall|x: int| 0 <= x < 3 && comp(d, x) != 0 implies not_before(n, d, c, x) by {
        // every moving axis is either b's competitor or c's
        if x == c {
        } else if c == 2 && x != 2 {
            // c beat b strictly, and b is not after x
            assert(earlier(n, d, 2, b));
            assert(not_before(n, d, b, x)) by {
                if x == b {
                    assert(not_before(n, d, b, b));
                } else if x == 1 {
                } else {
                    assert(x == 0 && a == 0);
                    if b == 1 {
                    }
                }
            }
            lemma_ratio_trans(comp(n, c), abs(comp(d, c)), comp(n, b), abs(comp(d, b)), comp(n, x), abs(comp(d, x)));
        } else if x == 2 {
            assert(!earlier(n, d, 2, c));
        } else {
            assert(not_before(n, d, b, x)) by {
                if x == b {
                } else if x == 1 {
                } else {
                    assert(x == 0 && a == 0);
                }
            }
        }
    }
}

/// Parameter at which the traversal entered its current voxel after `k` steps (zero at
/// the start), as numerator and denominator.
pub open spec fn t_num(s: Triple, d: Triple, k: nat) -> int {
    if k == 0 {
        0
    } else {
        entry_num(s, d, k)
    }
}

pub open spec fn t_den(s: Triple, d: Triple, k: nat) -> int {
    if k == 0 {
        1
    } else {
        entry_den(s, d, k)
    }
}

/// What the traversal keeps along axis `i` after `k` steps: the next-boundary offset
/// matches the voxel, and the ray at the current entry parameter lies between the voxel's
/// boundary behind it and the one ahead.
pub open spec fn axis_inv(s: Triple, d: Triple, k: nat, i: int) -> bool {
    let st = ray_state(s, d, k);
    let di = comp(d, i);
    let si = comp(s, i);
    let vi = comp(st.0, i);
    let ni = comp(st.1, i);
    let tn = t_num(s, d, k);
    let td = t_den(s, d, k);
    &&& (di > 0 ==> ni == (vi + 1) * UNITS - si)
    &&& (di < 0 ==> ni == si - vi * UNITS)
    &&& (di == 0 ==> vi == si / UNITS as int)
    &&& (di != 0 ==> ni * td >= tn * abs(di))
    &&& (di != 0 ==> (ni - UNITS) * td <= tn * abs(di))
}

pub open spec fn traversal_inv(s: Triple, d: Triple, k: nat) -> bool {
    &&& axis_inv(s, d, k, 0)
    &&& axis_inv(s, d, k, 1)
    &&& axis_inv(s, d, k, 2)
    &&& t_den(s, d, k) >= 1
    &&& t_num(s, d, k) >= 0
}

proof fn lemma_axis_step(s: Triple, d: Triple, k: nat, i: int)
    requires
        d != (0int, 0int, 0int),
        0 <= i < 3,
        traversal_inv(s, d, k),
    ensures
        axis_inv(s, d, k + 1, i),
{
    let st = ray_state(s, d, k);
    let n = st.1;
    let a = pick(n, d);
    lemma_pick_min(n, d);
    let k1 = (k + 1) as nat;
    assert(ray_state(s, d, k1) == advance(st, d));
    assert(t_num(s, d, k1) == comp(n, a));
    assert(t_den(s, d, k1) == abs(comp(d, a)));
    let tn = t_num(s, d, k);
    let td = t_den(s, d, k);
    let na = comp(n, a);
    let da = abs(comp(d, a));
    assert(axis_inv(s, d, k, a));
    assert(axis_inv(s, d, k, i));
    let di = comp(d, i);
    if i == a {
        assert((na + UNITS) * da >= na * da) by (nonlinear_arith)
            requires
                da >= 1,
        ;
    } else if di != 0 {
        let nb = comp(n, i);
        let db = abs(di);
        assert(not_before(n, d, a, i));
        assert((nb - UNITS) * da <= na * db) by (nonlinear_arith)
            requires
                (nb - UNITS) * td <= tn * db,
                na * td >= tn * da,
                td >= 1,
                da >= 1,
                db >= 1,
        ;
    }
}

/// The traversal keeps its per-axis bookkeeping at every step.
pub proof fn lemma_traversal_inv(s: Triple, d: Triple, k: nat)
    requires
        d != (0int, 0int, 0int),
    ensures
        traversal_inv(s, d, k),
    decreases k,
{
    if k == 0 {
        let v = ray_start(s, d).0;
        assert(axis_inv(s, d, 0, 0));
        assert(axis_inv(s, d, 0, 1));
        assert(axis_inv(s, d, 0, 2));
    } else {
        let k0 = (k - 1) as nat;
        lemma_traversal_inv(s, d, k0);
        lemma_axis_step(s, d, k0, 0);
        lemma_axis_step(s, d, k0, 1);
        lemma_axis_step(s, d, k0, 2);
        let n = ray_state(s, d, k0).1;
        lemma_pick_min(n, d);
        let a = pick(n, d);
        assert(axis_inv(s, d, k0, a));
        assert(comp(n, a) * t_den(s, d, k0) >= t_num(s, d, k0) * abs(comp(d, a)));
        assert(comp(n, a) >= 0) by (nonlinear_arith)
            requires
                comp(n, a) * t_den(s, d, k0) >= t_num(s, d, k0) * abs(comp(d, a)),
                t_den(s, d, k0) >= 1,
                t_num(s, d, k0) >= 0,
                abs(comp(d, a)) >= 1,
        ;
    }
}

/// The ray point at parameter `tn / td` lies in voxel `v` along axis `i` (boundaries
/// included).
pub open spec fn in_voxel_at(s: Triple, d: Triple, v: Triple, tn: int, td: int, i: int) -> bool {
    comp(v, i) * UNITS * td <= comp(s, i) * td + comp(d, i) * tn <= (comp(v, i) + 1) * UNITS * td
}

/// Every voxel the traversal enters contains the point at which the ray enters it.
pub proof fn lemma_entry_point_in_voxel(s: Triple, d: Triple, k: nat)
    requires
        d != (0int, 0int, 0int),
        k >= 1,
    ensures
        in_voxel_at(s, d, ray_voxel(s, d, k), entry_num(s, d, k), entry_den(s, d, k), 0),
        in_voxel_at(s, d, ray_voxel(s, d, k), entry_num(s, d, k), entry_den(s, d, k), 1),
        in_voxel_at(s, d, ray_voxel(s, d, k), entry_num(s, d, k), entry_den(s, d, k), 2),
        entry_den(s, d, k) >= 1,
        entry_num(s, d, k) >= 0,
{
    lemma_traversal_inv(s, d, k);
    lemma_axis_in_voxel(s, d, k, 0);
    lemma_axis_in_voxel(s, d, k, 1);
    lemma_axis_in_voxel(s, d, k, 2);
}

proof fn lemma_axis_in_voxel(s: Triple, d: Triple, k: nat, i: int)
    requires
        traversal_inv(s, d, k),
        0 <= i < 3,
    ensures
        in_voxel_at(s, d, ray_state(s, d, k).0, t_num(s, d, k), t_den(s, d, k), i),
{
    assert(axis_inv(s, d, k, i));
    let st = ray_state(s, d, k);
    let di = comp(d, i);
    let si = comp(s, i);
    let vi = comp(st.0, i);
    let ni = comp(st.1, i);
    let tn = t_num(s, d, k);
    let td = t_den(s, d, k);
    if di > 0 {
        assert(vi * UNITS * td <= si * td + di * tn <= (vi + 1) * UNITS * td) by (nonlinear_arith)
            requires
                ni == (vi + 1) * UNITS - si,
                ni * td >= tn * di,
                (ni - UNITS) * td <= tn * di,
        ;
    } else if di < 0 {
        assert(vi * UNITS * td <= si * td + di * tn <= (vi + 1) * UNITS * td) by (nonlinear_arith)
            requires
                ni == si - vi * UNITS,
                ni * td >= tn * (-di),
                (ni - UNITS) * td <= tn * (-di),
        ;
    } else {
        assert(vi * UNITS <= si < vi * UNITS + UNITS);
        assert(vi * UNITS * td <= si * td + di * tn <= (vi + 1) * UNITS * td) by (nonlinear_arith)
            requires
                vi * UNITS <= si < vi * UNITS + UNITS,
                di == 0,
                td >= 1,
        ;
    }
}

/// Voxel `v` meets the cube of half-side `m` centred on `s`.
pub open spec fn within_reach(s: Triple, m: int, v: Triple) -> bool {
    &&& v.0 * UNITS <= s.0 + m && s.0 - m <= (v.0 + 1) * UNITS
    &&& v.1 * UNITS <= s.1 + m && s.1 - m <= (v.1 + 1) * UNITS
    &&& v.2 * UNITS <= s.2 + m && s.2 - m <= (v.2 + 1) * UNITS
}

proof fn lemma_sq_bound(x: int, y: int)
    requires
        y >= 0,
        x * x <= y * y,
    ensures
        -y <= x <= y,
{
    if x > y {
        assert(x * x > y * y) by (nonlinear_arith)
            requires
                x > y,
                y >= 0,
        ;
    }
    if x < -y {
        assert(x * x > y * y) by (nonlinear_arith)
            requires
                x < -y,
                y >= 0,
        ;
    }
}

proof fn lemma_reach_axis(si: int, di: int, vi: int, tn: int, td: int, dd: int, m: int)
    requires
        td >= 1,
        tn >= 0,
        m >= 0,
        di * di <= dd,
        tn * tn * dd <= m * m * (td * td),
        vi * UNITS * td <= si * td + di * tn <= (vi + 1) * UNITS * td,
    ensures
        vi * UNITS <= si + m,
        si - m <= (vi + 1) * UNITS,
{
    assert((di * tn) * (di * tn) <= (m * td) * (m * td)) by (nonlinear_arith)
        requires
            di * di <= dd,
            tn * tn * dd <= m * m * (td * td),
    ;
    assert(m * td >= 0) by (nonlinear_arith)
        requires
            m >= 0,
            td >= 1,
    ;
    lemma_sq_bound(di * tn, m * td);
    assert(vi * UNITS <= si + m) by (nonlinear_arith)
        requires
            vi * UNITS * td <= si * td + di * tn,
            di * tn <= m * td,
            td >= 1,
    ;
    assert(si - m <= (vi + 1) * UNITS) by (nonlinear_arith)
        requires
            si * td + di * tn <= (vi + 1) * UNITS * td,
            -(m * td) <= di * tn,
            td >= 1,
    ;
}

/// A ray cast from a point around which no voxel within the ray's length is occupied
/// reports no hit.
pub proof fn lemma_clear_reach_no_hit(g: Grids, s: Triple, d: Triple, m: int, r: Option<RayHit>)
    requires
        ray_args_ok(s, d, m),
        cast_outcome(g, s, d, m, r),
        forall|v: Triple| within_reach(s, m, v) ==> !#[trigger] occupied(g, v),
    ensures
        r is None,
{
    if let Some(h) = r {
        let k = choose|k: nat|
            {
                &&& k >= 1
                &&& #[trigger] ray_voxel(s, d, k) == h.voxel@
                &&& within(s, d, m, k)
                &&& occupied(g, h.voxel@)
                &&& h.t_num == entry_num(s, d, k)
                &&& h.t_den == entry_den(s, d, k)
                &&& forall|j: nat| 1 <= j < k ==> !occupied(g, #[trigger] ray_voxel(s, d, j))
            };
        let v = ray_voxel(s, d, k);
        lemma_entry_point_in_voxel(s, d, k);
        let tn = entry_num(s, d, k);
        let td = entry_den(s, d, k);
        assert(d.0 * d.0 <= norm2(d) && d.1 * d.1 <= norm2(d) && d.2 * d.2 <= norm2(d)) by {
            assert(0 <= d.0 * d.0) by (nonlinear_arith);
            assert(0 <= d.1 * d.1) by (nonlinear_arith);
            assert(0 <= d.2 * d.2) by (nonlinear_arith);
        }
        lemma_reach_axis(s.0, d.0, v.0, tn, td, norm2(d), m);
        lemma_reach_axis(s.1, d.1, v.1, tn, td, norm2(d), m);
        lemma_reach_axis(s.2, d.2, v.2, tn, td, norm2(d), m);
        assert(within_reach(s, m, v));
    }
}

proof fn lemma_entry_step(s: Triple, d: Triple, k: nat)
    requires
        d != (0int, 0int, 0int),
        k >= 1,
    ensures
        entry_num(s, d, k) * entry_den(s, d, k + 1) <= entry_num(s, d, k + 1) * entry_den(s, d, k),
{
    lemma_traversal_inv(s, d, k);
    let n = ray_state(s, d, k).1;
    lemma_pick_min(n, d);
    let a = pick(n, d);
    assert(axis_inv(s, d, k, a));
    assert(entry_num(s, d, (k + 1) as nat) == comp(n, a));
    assert(entry_den(s, d, (k + 1) as nat) == abs(comp(d, a)));
}

/// Entry parameters never decrease along the traversal: each voxel is entered no earlier
/// than the ones before it, so voxels come in order of the distance at which the ray
/// enters them.
pub proof fn lemma_entry_nondecreasing(s: Triple, d: Triple, j: nat, k: nat)
    requires
        d != (0int, 0int, 0int),
        1 <= j <= k,
    ensures
        entry_num(s, d, j) * entry_den(s, d, k) <= entry_num(s, d, k) * entry_den(s, d, j),
    decreases k - j,
{
    lemma_entry_point_in_voxel(s, d, j);
    lemma_entry_point_in_voxel(s, d, k);
    if j < k {
        let k0 = (k - 1) as nat;
        lemma_entry_nondecreasing(s, d, j, k0);
        lemma_entry_step(s, d, k0);
        lemma_entry_point_in_voxel(s, d, k0);
        lemma_ratio_trans(
            entry_num(s, d, j),
            entry_den(s, d, j),
            entry_num(s, d, k0),
            entry_den(s, d, k0),
            entry_num(s, d, k),
            entry_den(s, d, k),
        );
    } else {
        assert(entry_num(s, d, j) * entry_den(s, d, k) <= entry_num(s, d, k) * entry_den(s, d, j));
    }
}

/// A voxel entered before one that lies within the ray's length lies within it too.
pub proof fn lemma_within_earlier(s: Triple, d: Triple, m: int, j: nat, k: nat)
    requires
        d != (0int, 0int, 0int),
        1 <= j <= k,
        within(s, d, m, k),
    ensures
        within(s, d, m, j),
{
    lemma_entry_nondecreasing(s, d, j, k);
    lemma_entry_point_in_voxel(s, d, j);
    lemma_entry_point_in_voxel(s, d, k);
    let nj = entry_num(s, d, j);
    let dj = entry_den(s, d, j);
    let nk = entry_num(s, d, k);
    let dk = entry_den(s, d, k);
    let dd = norm2(d);
    assert(0 <= dd) by {
        assert(0 <= d.0 * d.0) by (nonlinear_arith);
        assert(0 <= d.1 * d.1) by (nonlinear_arith);
        assert(0 <= d.2 * d.2) by (nonlinear_arith);
    }
    assert(nj * nj * (dk * dk) <= nk * nk * (dj * dj)) by (nonlinear_arith)
        requires
            nj * dk <= nk * dj,
            nj >= 0,
            dk >= 1,
    ;
    assert(nj * nj * dd * (dk * dk) <= nk * nk * dd * (dj * dj)) by (nonlinear_arith)
        requires
            nj * nj * (dk * dk) <= nk * nk * (dj * dj),
            dd >= 0,
    ;
    assert(nk * nk * dd * (dj * dj) < m * m * (dk * dk) * (dj * dj)) by (nonlinear_arith)
        requires
            nk * nk * dd < m * m * (dk * dk),
            dj >= 1,
    ;
    assert(nj * nj * dd < m * m * (dj * dj)) by (nonlinear_arith)
        requires
            nj * nj * dd * (dk * dk) < m * m * (dk * dk) * (dj * dj),
            dk >= 1,
    ;
}

/// A ray that enters no solid voxel before its length is reached reports no hit.
pub proof fn lemma_clear_ray_no_hit(g: Grids, s: Triple, d: Triple, m: int, r: Option<RayHit>)
    requires
        cast_outcome(g, s, d, m, r),
        forall|k: nat| k >= 1 && within(s, d, m, k) ==> !occupied(g, #[trigger] ray_voxel(s, d, k)),
    ensures
        r is None,
{
}

/// A ray whose traversal enters a solid voxel before its length is reached, after only
/// non-solid ones, reports that voxel and the parameter at which the ray enters it (a point
/// of that voxel: `lemma_entry_point_in_voxel`).
pub proof fn lemma_first_solid_is_hit(g: Grids, s: Triple, d: Triple, m: int, r: Option<RayHit>, k: nat)
    requires
        d != (0int, 0int, 0int),
        cast_outcome(g, s, d, m, r),
        k >= 1,
        within(s, d, m, k),
        occupied(g, ray_voxel(s, d, k)),
        forall|j: nat| 1 <= j < k ==> !occupied(g, #[trigger] ray_voxel(s, d, j)),
    ensures
        r matches Some(h) && h.voxel@ == ray_voxel(s, d, k) && h.t_num == entry_num(s, d, k) && h.t_den
            == entry_den(s, d, k),
{
    match r {
        None => {
            let big = choose|big: nat|
                {
                    &&& big >= 1
                    &&& !#[trigger] within(s, d, m, big)
                    &&& forall|j: nat| 1 <= j < big ==> within(s, d, m, j) && !occupied(g, #[trigger] ray_voxel(s, d, j))
                };
            if big <= k {
                lemma_within_earlier(s, d, m, big, k);
            } else {
                assert(!occupied(g, ray_voxel(s, d, k)));
            }
        },
        Some(h) => {
            let k2 = choose|k2: nat|
                {
                    &&& k2 >= 1
                    &&& #[trigger] ray_voxel(s, d, k2) == h.voxel@
                    &&& within(s, d, m, k2)
                    &&& occupied(g, h.voxel@)
                    &&& h.t_num == entry_num(s, d, k2)
                    &&& h.t_den == entry_den(s, d, k2)
                    &&& forall|j: nat| 1 <= j < k2 ==> !occupied(g, #[trigger] ray_voxel(s, d, j))
                };
            if k2 < k {
                assert(!occupied(g, ray_voxel(s, d, k2)));
            } else if k2 > k {
                assert(!occupied(g, ray_voxel(s, d, k)));
            }
        },
    }
}

/// Where to place a block against a hit: the entered voxel moved one cell back across each
/// of its faces on which the entry point lies.
pub open spec fn place_offset(s: int, d: int, v: int, tn: int, td: int) -> int {
    if s * td + d * tn == v * UNITS * td {
        v - 1
    } else if s * td + d * tn == (v + 1) * UNITS * td {
        v + 1
    } else {
        v
    }
}

fn place_axis(s: i64, d: i64, v: i64, tn: i64, td: i64) -> (r: i64)
    requires
        -RAY_ORIGIN_MAX <= s <= RAY_ORIGIN_MAX,
        -RAY_DIR_MAX <= d <= RAY_DIR_MAX,
        -RAY_ORIGIN_MAX <= v <= RAY_ORIGIN_MAX,
        0 <= tn <= RAY_LENGTH_MAX + UNITS,
        1 <= td <= RAY_DIR_MAX,
    ensures
        r == place_offset(s as int, d as int, v as int, tn as int, td as int),
{
    proof {
        lemma_mul_upper_bound(abs(s as int), RAY_ORIGIN_MAX as int, td as int, RAY_DIR_MAX as int);
        lemma_mul_upper_bound(abs(d as int), RAY_DIR_MAX as int, tn as int, RAY_LENGTH_MAX + UNITS);
        lemma_mul_upper_bound(abs(v as int) + 1, RAY_ORIGIN_MAX + 1, td as int, RAY_DIR_MAX as int);
        assert(abs(s * td) == abs(s as int) * td) by (nonlinear_arith)
            requires
                td >= 1,
        ;
        assert(abs(d * tn) == abs(d as int) * tn) by (nonlinear_arith)
            requires
                tn >= 0,
        ;
        assert(abs(v * UNITS * td) <= (abs(v as int) + 1) * UNITS * td) by (nonlinear_arith)
            requires
                td >= 1,
        ;
        assert(abs((v + 1) * UNITS * td) <= (abs(v as int) + 1) * UNITS * td) by (nonlinear_arith)
            requires
                td >= 1,
        ;
        assert((abs(v as int) + 1) * UNITS * td == (abs(v as int) + 1) * td * UNITS) by (nonlinear_arith);
    }
    let p = (s as i128) * (td as i128) + (d as i128) * (tn as i128);
    let lo = (v as i128) * (UNITS as i128) * (td as i128);
    let hi = ((v as i128) + 1) * (UNITS as i128) * (td as i128);
    if p == lo {
        v - 1
    } else if p == hi {
        v + 1
    } else {
        v
    }
}

/// The voxel in front of the face a ray struck, where a placed block goes: the hit voxel
/// moved one cell back across each of its faces on which the entry point lies.
pub fn place_target(start: &Pos3, dir: &Pos3, hit: &RayHit) -> (r: Pos3)
    requires
        ray_args_ok(start@, dir@, 0),
        hit_ok(*hit, RAY_LENGTH_MAX as int),
    ensures
        r@ == (
            place_offset(start.x as int, dir.x as int, hit.voxel.x as int, hit.t_num as int, hit.t_den as int),
            place_offset(start.y as int, dir.y as int, hit.voxel.y as int, hit.t_num as int, hit.t_den as int),
            place_offset(start.z as int, dir.z as int, hit.voxel.z as int, hit.t_num as int, hit.t_den as int),
        ),
{
    Pos3 {
        x: place_axis(start.x, dir.x, hit.voxel.x, hit.t_num, hit.t_den),
        y: place_axis(start.y, dir.y, hit.voxel.y, hit.t_num, hit.t_den),
        z: place_axis(start.z, dir.z, hit.voxel.z, hit.t_num, hit.t_den),
    }
}

} // verus!
