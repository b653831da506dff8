use vstd::prelude::*;
use crate::coords::Pos3;
use crate::raycast::{comp, Triple};

verus! {

/// Largest magnitude of a box corner coordinate, in units.
pub const BOX_COORD_MAX: i64 = 1152921504606846976;

/// Largest box extent, in units.
pub const BOX_SIZE_MAX: i64 = 1099511627776;

/// An axis-aligned box: its lowest corner and its extent along each axis (in units).
#[derive(Clone, Copy, PartialEq, Eq, Structural, Debug)]
pub struct Rect3 {
    pub pos: Pos3,
    pub size: Pos3,
}

pub open spec fn box_ok(r: Rect3) -> bool {
    &&& -BOX_COORD_MAX <= r.pos.x <= BOX_COORD_MAX
    &&& -BOX_COORD_MAX <= r.pos.y <= BOX_COORD_MAX
    &&& -BOX_COORD_MAX <= r.pos.z <= BOX_COORD_MAX
    &&& 0 <= r.size.x <= BOX_SIZE_MAX
    &&& 0 <= r.size.y <= BOX_SIZE_MAX
    &&& 0 <= r.size.z <= BOX_SIZE_MAX
}

pub open spec fn lo(r: Rect3, a: int) -> int {
    comp(r.pos@, a)
}

pub open spec fn hi(r: Rect3, a: int) -> int {
    comp(r.pos@, a) + comp(r.size@, a)
}

/// The open intervals of the two boxes meet along axis `a`.
pub open spec fn overlaps_on(r1: Rect3, r2: Rect3, a: int) -> bool {
    lo(r1, a) < hi(r2, a) && hi(r1, a) > lo(r2, a)
}

/// The interiors of the two boxes intersect.
pub open spec fn overlaps(r1: Rect3, r2: Rect3) -> bool {
    overlaps_on(r1, r2, 0) && overlaps_on(r1, r2, 1) && overlaps_on(r1, r2, 2)
}

/// The closed box holds the point.
pub open spec fn holds_point(r: Rect3, p: Triple) -> bool {
    &&& lo(r, 0) <= p.0 <= hi(r, 0)
    &&& lo(r, 1) <= p.1 <= hi(r, 1)
    &&& lo(r, 2) <= p.2 <= hi(r, 2)
}

/// `r` moved by `t` along axis `a`.
pub open spec fn shifted(r: Rect3, a: int, t: int) -> Rect3 {
    Rect3 {
        pos: if a == 0 {
            Pos3 { x: (r.pos.x + t) as i64, ..r.pos }
        } else if a == 1 {
            Pos3 { y: (r.pos.y + t) as i64, ..r.pos }
        } else {
            Pos3 { z: (r.pos.z + t) as i64, ..r.pos }
        },
        ..r
    }
}

/// Distance `r` must move up along axis `a` to clear `b`, and down.
pub open spec fn depth_up(r: Rect3, b: Rect3, a: int) -> int {
    hi(b, a) - lo(r, a)
}

pub open spec fn depth_down(r: Rect3, b: Rect3, a: int) -> int {
    hi(r, a) - lo(b, a)
}

/// Displacement along axis `a` that resolves an overlap of `r` with `b`: the smaller of the
/// two penetration depths, upward on a tie; nothing where they do not overlap.
pub open spec fn push_out_spec(r: Rect3, b: Rect3, a: int) -> int {
    if !overlaps(r, b) {
        0
    } else if depth_up(r, b, a) <= depth_down(r, b, a) {
        depth_up(r, b, a)
    } else {
        -depth_down(r, b, a)
    }
}

/// Whether two boxes overlap (interiors intersect).
pub fn rect_vs_rect(r1: &Rect3, r2: &Rect3) -> (r: bool)
    requires
        box_ok(*r1),
        box_ok(*r2),
    ensures
        r == overlaps(*r1, *r2),
{
    r1.pos.x < r2.pos.x + r2.size.x && r1.pos.x + r1.size.x > r2.pos.x && r1.pos.y < r2.pos.y + r2.size.y && r1.pos.y
        + r1.size.y > r2.pos.y && r1.pos.z < r2.pos.z + r2.size.z && r1.pos.z + r1.size.z > r2.pos.z
}

/// Whether the closed box holds the point.
pub fn point_vs_rect(p: &Pos3, r: &Rect3) -> (b: bool)
    requires
        box_ok(*r),
    ensures
        b == holds_point(*r, p@),
{
    p.x >= r.pos.x && p.y >= r.pos.y && p.z >= r.pos.z && p.x <= r.pos.x + r.size.x && p.y <= r.pos.y + r.size.y && p.z
        <= r.pos.z + r.size.z
}

/// Displacement along axis `a` that moves `r` out of `b` by the smaller penetration depth.
pub fn push_out(r: &Rect3, b: &Rect3, a: usize) -> (t: i64)
    requires
        box_ok(*r),
        box_ok(*b),
        a < 3,
    ensures
        t == push_out_spec(*r, *b, a as int),
{
    if !rect_vs_rect(r, b) {
        return 0;
    }
    let (rl, rs, bl, bs) = if a == 0 {
        (r.pos.x, r.size.x, b.pos.x, b.size.x)
    } else if a == 1 {
        (r.pos.y, r.size.y, b.pos.y, b.size.y)
    } else {
        (r.pos.z, r.size.z, b.pos.z, b.size.z)
    };
    let up = bl + bs - rl;
    let down = rl + rs - bl;
    if up <= down {
        up
    } else {
        -down
    }
}

/// A box overlapping another, moved along one axis by the resolving displacement, no longer
/// overlaps it; the displacement is the smaller penetration depth, and any shorter move
/// along that axis leaves the boxes overlapping.
pub proof fn lemma_push_out_separates(r: Rect3, b: Rect3, a: int)
    requires
        box_ok(r),
        box_ok(b),
        overlaps(r, b),
        0 <= a < 3,
    ensures
        !overlaps(shifted(r, a, push_out_spec(r, b, a)), b),
        push_out_spec(r, b, a) == depth_up(r, b, a) || push_out_spec(r, b, a) == -depth_down(r, b, a),
        0 < depth_up(r, b, a),
        0 < depth_down(r, b, a),
        crate::raycast::abs(push_out_spec(r, b, a)) == if depth_up(r, b, a) <= depth_down(r, b, a) {
            depth_up(r, b, a)
        } else {
            depth_down(r, b, a)
        },
        forall|t: int|
            crate::raycast::abs(t) < crate::raycast::abs(push_out_spec(r, b, a)) ==> overlaps(#[trigger] shifted(r, a, t), b),
{
    let t = push_out_spec(r, b, a);
    assert(!overlaps_on(shifted(r, a, t), b, a));
}

pub proof fn lemma_push_out_bound(r: Rect3, b: Rect3, a: int)
    requires
        box_ok(r),
        box_ok(b),
        0 <= a < 3,
    ensures
        -(comp(r.size@, a) + comp(b.size@, a)) <= push_out_spec(r, b, a) <= comp(r.size@, a) + comp(b.size@, a),
{
}

} // verus!
