use vstd::prelude::*;

verus! {

/// Side length of a chunk, in blocks.
pub const CHUNK_SIZE: usize = 16;

/// Number of cells in a chunk.
pub const CHUNK_VOLUME: usize = 4096;

/// An integer position: a world voxel or a chunk coordinate.
#[derive(Clone, Copy, PartialEq, Eq, Structural, Debug)]
pub struct Pos3 {
    pub x: i64,
    pub y: i64,
    pub z: i64,
}

/// A cell inside a chunk; every component lies in `0..CHUNK_SIZE` where it addresses a cell.
#[derive(Clone, Copy, PartialEq, Eq, Structural, Debug)]
pub struct Local3 {
    pub x: usize,
    pub y: usize,
    pub z: usize,
}

impl View for Pos3 {
    type V = (int, int, int);

    open spec fn view(&self) -> (int, int, int) {
        (self.x as int, self.y as int, self.z as int)
    }
}

impl View for Local3 {
    type V = (int, int, int);

    open spec fn view(&self) -> (int, int, int) {
        (self.x as int, self.y as int, self.z as int)
    }
}

impl Pos3 {
    pub fn new(x: i64, y: i64, z: i64) -> (r: Pos3)
        ensures
            r@ == (x as int, y as int, z as int),
    {
        Pos3 { x, y, z }
    }
}

impl Local3 {
    pub fn new(x: usize, y: usize, z: usize) -> (r: Local3)
        ensures
            r@ == (x as int, y as int, z as int),
    {
        Local3 { x, y, z }
    }
}

/// Lowest chunk coordinate whose cells all have `i64` world coordinates.
pub const CHUNK_COORD_MIN: i64 = -576460752303423488;

/// Highest chunk coordinate whose cells all have `i64` world coordinates.
pub const CHUNK_COORD_MAX: i64 = 576460752303423487;

pub open spec fn chunk_coord_in_range(c: (int, int, int)) -> bool {
    &&& CHUNK_COORD_MIN <= c.0 <= CHUNK_COORD_MAX
    &&& CHUNK_COORD_MIN <= c.1 <= CHUNK_COORD_MAX
    &&& CHUNK_COORD_MIN <= c.2 <= CHUNK_COORD_MAX
}

pub open spec fn in_local_range(l: (int, int, int)) -> bool {
    &&& 0 <= l.0 < 16
    &&& 0 <= l.1 < 16
    &&& 0 <= l.2 < 16
}

/// Chunk holding world position `p` (floor division by the chunk size).
pub open spec fn chunk_of(p: (int, int, int)) -> (int, int, int) {
    (p.0 / 16, p.1 / 16, p.2 / 16)
}

/// Cell of world position `p` inside its chunk (Euclidean remainder).
pub open spec fn local_of(p: (int, int, int)) -> (int, int, int) {
    (p.0 % 16, p.1 % 16, p.2 % 16)
}

/// World position of cell `l` of chunk `c`.
pub open spec fn world_of(c: (int, int, int), l: (int, int, int)) -> (int, int, int) {
    (16 * c.0 + l.0, 16 * c.1 + l.1, 16 * c.2 + l.2)
}

/// Index of a local cell in a chunk's flat block array (x major, z minor).
pub open spec fn cell_index(l: (int, int, int)) -> int {
    l.0 * 256 + l.1 * 16 + l.2
}

/// Local cell stored at flat index `i`.
pub open spec fn cell_at(i: int) -> (int, int, int) {
    (i / 256, (i / 16) % 16, i % 16)
}

pub proof fn lemma_axis_split(v: int)
    ensures
        16 * (v / 16) + v % 16 == v,
        0 <= v % 16 < 16,
{
}

pub proof fn lemma_axis_recombine(c: int, l: int)
    requires
        0 <= l < 16,
    ensures
        (16 * c + l) / 16 == c,
        (16 * c + l) % 16 == l,
{
    vstd::arithmetic::div_mod::lemma_fundamental_div_mod_converse(16 * c + l, 16, c, l);
}

/// Every world position is its chunk's origin plus its local cell, and the local cell
/// lies inside the chunk, for negative coordinates too.
pub proof fn lemma_split_recombines(p: (int, int, int))
    ensures
        world_of(chunk_of(p), local_of(p)) == p,
        in_local_range(local_of(p)),
{
    lemma_axis_split(p.0);
    lemma_axis_split(p.1);
    lemma_axis_split(p.2);
}

/// A chunk and a cell inside it are recovered from the world position they make.
pub proof fn lemma_recombine_splits(c: (int, int, int), l: (int, int, int))
    requires
        in_local_range(l),
    ensures
        chunk_of(world_of(c, l)) == c,
        local_of(world_of(c, l)) == l,
{
    lemma_axis_recombine(c.0, l.0);
    lemma_axis_recombine(c.1, l.1);
    lemma_axis_recombine(c.2, l.2);
}

/// Flat indices and local cells correspond one to one.
pub proof fn lemma_cell_index(i: int)
    requires
        0 <= i < 4096,
    ensures
        in_local_range(cell_at(i)),
        cell_index(cell_at(i)) == i,
{
    let x = i / 256;
    let r = i % 256;
    vstd::arithmetic::div_mod::lemma_fundamental_div_mod(i, 256);
    vstd::arithmetic::div_mod::lemma_fundamental_div_mod(i, 16);
    vstd::arithmetic::div_mod::lemma_fundamental_div_mod(i / 16, 16);
    assert(i / 16 == x * 16 + (i / 16) % 16) by {
        vstd::arithmetic::div_mod::lemma_div_denominator(i, 16, 16);
    }
}

pub proof fn lemma_cell_at_index(l: (int, int, int))
    requires
        in_local_range(l),
    ensures
        0 <= cell_index(l) < 4096,
        cell_at(cell_index(l)) == l,
{
    let i = cell_index(l);
    vstd::arithmetic::div_mod::lemma_fundamental_div_mod_converse(i, 256, l.0, l.1 * 16 + l.2);
    vstd::arithmetic::div_mod::lemma_fundamental_div_mod_converse(i, 16, l.0 * 16 + l.1, l.2);
    vstd::arithmetic::div_mod::lemma_fundamental_div_mod_converse(l.0 * 16 + l.1, 16, l.0, l.1);
}

/// Floor division and Euclidean remainder of one coordinate by the chunk size.
fn split_axis(v: i64) -> (r: (i64, usize))
    ensures
        r.0 as int == (v as int) / 16,
        r.1 as int == (v as int) % 16,
        r.1 < 16,
        CHUNK_COORD_MIN <= r.0 <= CHUNK_COORD_MAX,
{
    if v >= 0 {
        let u = v as u64;
        let q = (u / 16) as i64;
        let m = (u % 16) as usize;
        proof {
            vstd::arithmetic::div_mod::lemma_fundamental_div_mod_converse(
                v as int,
                16,
                q as int,
                m as int,
            );
        }
        (q, m)
    } else {
        let a = (-(v + 1)) as u64;
        let qa = (a / 16) as i64;
        let ra = (a % 16) as usize;
        let q = -qa - 1;
        let m = 15 - ra;
        proof {
            vstd::arithmetic::div_mod::lemma_fundamental_div_mod_converse(
                v as int,
                16,
                q as int,
                m as int,
            );
        }
        (q, m)
    }
}

/// Splits a world position into the coordinate of the chunk that holds it and its cell
/// inside that chunk.
pub fn chunk_and_block_index(world_pos: &Pos3) -> (r: (Pos3, Local3))
    ensures
        r.0@ == chunk_of(world_pos@),
        r.1@ == local_of(world_pos@),
        in_local_range(r.1@),
        chunk_coord_in_range(r.0@),
{
    let (cx, lx) = split_axis(world_pos.x);
    let (cy, ly) = split_axis(world_pos.y);
    let (cz, lz) = split_axis(world_pos.z);
    (Pos3 { x: cx, y: cy, z: cz }, Local3 { x: lx, y: ly, z: lz })
}

/// Floor division by a positive divisor.
pub fn floor_div(x: i64, m: i64) -> (r: i64)
    requires
        m > 0,
    ensures
        r as int == (x as int) / (m as int),
{
    if x >= 0 {
        let q = ((x as u64) / (m as u64)) as i64;
        q
    } else {
        let a = (-(x + 1)) as u64;
        let qa = a / (m as u64);
        let ra = a % (m as u64);
        proof {
            vstd::arithmetic::div_mod::lemma_fundamental_div_mod(a as int, m as int);
            assert(qa as int * m as int <= a) by (nonlinear_arith)
                requires
                    qa as int * m as int + ra as int == a,
                    ra >= 0,
            ;
            assert(qa as int <= a as int) by (nonlinear_arith)
                requires
                    qa as int * m as int <= a as int,
                    m >= 1,
                    qa >= 0,
            ;
        }
        let q = -(qa as i64) - 1;
        proof {
            assert(x as int == q as int * m as int + (m as int - 1 - ra as int)) by (nonlinear_arith)
                requires
                    qa as int * m as int + ra as int == a as int,
                    a as int == -(x as int + 1),
                    q as int == -(qa as int) - 1,
            ;
            vstd::arithmetic::div_mod::lemma_fundamental_div_mod_converse(
                x as int,
                m as int,
                q as int,
                m as int - 1 - ra as int,
            );
        }
        q
    }
}

} // verus!
