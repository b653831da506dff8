use vstd::prelude::*;
use crate::block::{block, is_crossed, is_solid, valid_block_id, AIR, DIRT, GRASS, OAK_LEAVES, OAK_LOG, STONE};
use crate::coords::{
    cell_at, cell_index, chunk_and_block_index, chunk_coord_in_range, chunk_of, in_local_range,
    lemma_cell_at_index, lemma_cell_index, lemma_recombine_splits, lemma_split_recombines,
    local_of, world_of, Local3, Pos3, CHUNK_SIZE, CHUNK_VOLUME,
};
use crate::meshgen::{block_faces, cube_faces, dir_offset, push_block_faces, shows_face, Face};

verus! {

/// Block grids of loaded chunks, keyed by chunk coordinate; each grid is indexed by
/// `cell_index` and holds `CHUNK_VOLUME` block ids.
pub type Grids = Map<(int, int, int), Seq<usize>>;

pub open spec fn add3(a: (int, int, int), b: (int, int, int)) -> (int, int, int) {
    (a.0 + b.0, a.1 + b.1, a.2 + b.2)
}

/// Block at world position `p`, or `None` where its chunk is not loaded.
pub open spec fn loaded_block(g: Grids, p: (int, int, int)) -> Option<usize> {
    if g.contains_key(chunk_of(p)) {
        Some(g[chunk_of(p)][cell_index(local_of(p))])
    } else {
        None
    }
}

/// Block at world position `p`; space outside loaded chunks is air.
pub open spec fn block_at(g: Grids, p: (int, int, int)) -> usize {
    match loaded_block(g, p) {
        Some(b) => b,
        None => AIR,
    }
}

/// The six neighbours of `p` in cube-face order.
pub open spec fn neighbours_of(g: Grids, p: (int, int, int)) -> Seq<Option<usize>> {
    Seq::new(6, |k: int| loaded_block(g, add3(p, dir_offset(k))))
}

/// Faces that the block at world position `p` contributes to its chunk's mesh.
pub open spec fn faces_at(g: Grids, p: (int, int, int)) -> Seq<Face> {
    block_faces(block_at(g, p) as int, local_of(p), neighbours_of(g, p))
}

/// Faces of the first `n` cells of chunk `c`, in cell-index order.
pub open spec fn mesh_upto(g: Grids, c: (int, int, int), n: int) -> Seq<Face>
    decreases n,
{
    if n <= 0 {
        Seq::empty()
    } else {
        mesh_upto(g, c, n - 1) + faces_at(g, world_of(c, cell_at(n - 1)))
    }
}

/// The mesh of chunk `c`: the faces of all its cells, in cell-index order.
pub open spec fn mesh_of(g: Grids, c: (int, int, int)) -> Seq<Face> {
    mesh_upto(g, c, CHUNK_VOLUME as int)
}

/// Every loaded grid has the chunk volume and holds registry ids only.
pub open spec fn grids_valid(g: Grids) -> bool {
    forall|c: (int, int, int)|
        #[trigger] g.contains_key(c) ==> {
            &&& g[c].len() == CHUNK_VOLUME
            &&& chunk_coord_in_range(c)
            &&& forall|i: int| 0 <= i < CHUNK_VOLUME ==> valid_block_id(#[trigger] g[c][i] as int)
        }
}

pub open spec fn blocks_valid(s: Seq<usize>) -> bool {
    &&& s.len() == CHUNK_VOLUME
    &&& forall|i: int| 0 <= i < s.len() ==> valid_block_id(#[trigger] s[i] as int)
}

pub open spec fn axis_inside(c: int, v: int) -> bool {
    16 * c <= v < 16 * c + 16
}

pub open spec fn axis_near(c: int, v: int) -> bool {
    16 * c - 1 <= v <= 16 * c + 16
}

/// Whether world position `p` is read when meshing chunk `c`: a cell of `c`, or a cell
/// next to one across a face.
pub open spec fn near_chunk(c: (int, int, int), p: (int, int, int)) -> bool {
    &&& axis_near(c.0, p.0)
    &&& axis_near(c.1, p.1)
    &&& axis_near(c.2, p.2)
    &&& {
        ||| axis_inside(c.0, p.0) && axis_inside(c.1, p.1)
        ||| axis_inside(c.0, p.0) && axis_inside(c.2, p.2)
        ||| axis_inside(c.1, p.1) && axis_inside(c.2, p.2)
    }
}

/// Whether the cell at local position `l` lies on the face of its chunk that looks across
/// cube face `k`.
pub open spec fn on_boundary(l: (int, int, int), k: int) -> bool {
    if k == 0 {
        l.0 == 15
    } else if k == 1 {
        l.0 == 0
    } else if k == 2 {
        l.1 == 15
    } else if k == 3 {
        l.1 == 0
    } else if k == 4 {
        l.2 == 15
    } else {
        l.2 == 0
    }
}

/// Chunks whose meshes can change when the block at world position `p` changes: its own
/// chunk, and each chunk across a face of it on which `p` lies.
pub open spec fn affected_by(d: (int, int, int), p: (int, int, int)) -> bool {
    ||| d == chunk_of(p)
    ||| exists|k: int| 0 <= k < 6 && on_boundary(local_of(p), k) && d == add3(chunk_of(p), #[trigger] dir_offset(k))
}

proof fn lemma_axis_near(c: int, v: int)
    requires
        axis_near(c, v),
    ensures
        axis_inside(c, v) ==> v / 16 == c,
        v == 16 * c - 1 ==> v / 16 == c - 1 && v % 16 == 15,
        v == 16 * c + 16 ==> v / 16 == c + 1 && v % 16 == 0,
{
    if axis_inside(c, v) {
        vstd::arithmetic::div_mod::lemma_fundamental_div_mod_converse(v, 16, c, v - 16 * c);
    } else if v == 16 * c - 1 {
        vstd::arithmetic::div_mod::lemma_fundamental_div_mod_converse(v, 16, c - 1, 15);
    } else {
        vstd::arithmetic::div_mod::lemma_fundamental_div_mod_converse(v, 16, c + 1, 0);
    }
}

/// Meshing chunk `d` reads position `p` only where a change at `p` affects `d`.
pub proof fn lemma_near_affected(d: (int, int, int), p: (int, int, int))
    requires
        near_chunk(d, p),
    ensures
        affected_by(d, p),
{
    lemma_axis_near(d.0, p.0);
    lemma_axis_near(d.1, p.1);
    lemma_axis_near(d.2, p.2);
    let c = chunk_of(p);
    if d != c {
        if !axis_inside(d.0, p.0) {
            if p.0 == 16 * d.0 - 1 {
                assert(on_boundary(local_of(p), 0) && d == add3(c, dir_offset(0)));
            } else {
                assert(on_boundary(local_of(p), 1) && d == add3(c, dir_offset(1)));
            }
        } else if !axis_inside(d.1, p.1) {
            if p.1 == 16 * d.1 - 1 {
                assert(on_boundary(local_of(p), 2) && d == add3(c, dir_offset(2)));
            } else {
                assert(on_boundary(local_of(p), 3) && d == add3(c, dir_offset(3)));
            }
        } else {
            if p.2 == 16 * d.2 - 1 {
                assert(on_boundary(local_of(p), 4) && d == add3(c, dir_offset(4)));
            } else {
                assert(on_boundary(local_of(p), 5) && d == add3(c, dir_offset(5)));
            }
        }
    }
}

proof fn lemma_mesh_upto_frame(g1: Grids, g2: Grids, c: (int, int, int), n: int)
    requires
        0 <= n <= CHUNK_VOLUME,
        forall|p: (int, int, int)| near_chunk(c, p) ==> #[trigger] loaded_block(g1, p) == loaded_block(g2, p),
    ensures
        mesh_upto(g1, c, n) == mesh_upto(g2, c, n),
    decreases n,
{
    if n > 0 {
        lemma_mesh_upto_frame(g1, g2, c, n - 1);
        let l = cell_at(n - 1);
        lemma_cell_index(n - 1);
        let p = world_of(c, l);
        assert(near_chunk(c, p));
        assert(loaded_block(g1, p) == loaded_block(g2, p));
        assert forall|k: int| 0 <= k < 6 implies near_chunk(c, #[trigger] add3(p, dir_offset(k))) by {
            if k == 0 {
            } else if k == 1 {
            } else if k == 2 {
            } else if k == 3 {
            } else if k == 4 {
            } else {
            }
        }
        assert(neighbours_of(g1, p) =~= neighbours_of(g2, p)) by {
            assert forall|k: int| 0 <= k < 6 implies neighbours_of(g1, p)[k] == neighbours_of(g2, p)[k] by {
                assert(near_chunk(c, add3(p, dir_offset(k))));
                assert(loaded_block(g1, add3(p, dir_offset(k))) == loaded_block(g2, add3(p, dir_offset(k))));
            }
        }
    }
}

/// A chunk's mesh depends only on the blocks of the chunk and of the cells next to it
/// across its faces.
pub proof fn lemma_mesh_frame(g1: Grids, g2: Grids, c: (int, int, int))
    requires
        forall|p: (int, int, int)| near_chunk(c, p) ==> #[trigger] loaded_block(g1, p) == loaded_block(g2, p),
    ensures
        mesh_of(g1, c) == mesh_of(g2, c),
{
    lemma_mesh_upto_frame(g1, g2, c, CHUNK_VOLUME as int);
}

/// Grids after block `v` is written at world position `p` (nothing changes where `p` is not
/// loaded).
pub open spec fn edited(g: Grids, p: (int, int, int), v: usize) -> Grids {
    if g.contains_key(chunk_of(p)) {
        g.insert(chunk_of(p), g[chunk_of(p)].update(cell_index(local_of(p)), v))
    } else {
        g
    }
}

pub type Meshes = Map<(int, int, int), Option<Seq<Face>>>;

/// Every loaded chunk outside `s` has the mesh its surroundings give.
pub open spec fn consistent_except(g: Grids, m: Meshes, s: Set<(int, int, int)>) -> bool {
    forall|d: (int, int, int)| #[trigger] g.contains_key(d) && !s.contains(d) ==> m[d] == Some(mesh_of(g, d))
}

/// Meshes after chunk `c` is regenerated (nothing changes where `c` is not loaded).
pub open spec fn refreshed(g: Grids, m: Meshes, c: (int, int, int)) -> Meshes {
    if g.contains_key(c) {
        m.insert(c, Some(mesh_of(g, c)))
    } else {
        m
    }
}

proof fn lemma_refresh(g: Grids, m: Meshes, s: Set<(int, int, int)>, c: (int, int, int))
    requires
        consistent_except(g, m, s),
    ensures
        consistent_except(g, refreshed(g, m, c), s.remove(c)),
{
}

/// Writing one block changes the mesh of no chunk that the write does not affect.
pub proof fn lemma_edit_frame(g: Grids, p: (int, int, int), v: usize, d: (int, int, int))
    requires
        grids_valid(g),
        !affected_by(d, p),
    ensures
        mesh_of(edited(g, p, v), d) == mesh_of(g, d),
{
    let g2 = edited(g, p, v);
    assert forall|q: (int, int, int)| near_chunk(d, q) implies #[trigger] loaded_block(g2, q) == loaded_block(g, q) by {
        if !near_chunk(d, p) {
            lemma_split_recombines(p);
            lemma_split_recombines(q);
            assert(q != p);
            if chunk_of(q) == chunk_of(p) && g.contains_key(chunk_of(p)) {
                assert(local_of(q) != local_of(p));
                lemma_cell_at_index(local_of(q));
                lemma_cell_at_index(local_of(p));
                assert(cell_index(local_of(q)) != cell_index(local_of(p)));
            }
        } else {
            lemma_near_affected(d, p);
        }
    }
    lemma_mesh_frame(g2, g, d);
}

/// Replacing one chunk's grid changes the mesh of no chunk but it and those across its faces.
pub proof fn lemma_insert_frame(g: Grids, c: (int, int, int), b: Seq<usize>, d: (int, int, int))
    requires
        d != c,
        forall|k: int| 0 <= k < 6 ==> d != add3(c, #[trigger] dir_offset(k)),
    ensures
        mesh_of(g.insert(c, b), d) == mesh_of(g, d),
{
    let g2 = g.insert(c, b);
    assert forall|q: (int, int, int)| near_chunk(d, q) implies #[trigger] loaded_block(g2, q) == loaded_block(g, q) by {
        lemma_near_affected(d, q);
        if chunk_of(q) == c {
            if d != chunk_of(q) {
                let k = choose|k: int| 0 <= k < 6 && on_boundary(local_of(q), k) && d == add3(chunk_of(q), #[trigger] dir_offset(k));
                assert(d == add3(c, dir_offset(k)));
            }
        }
    }
    lemma_mesh_frame(g2, g, d);
}

/// A cubic block grid with its generated mesh and its chunk coordinate (world offset:
/// the coordinate times `CHUNK_SIZE`).
pub struct Chunk {
    coord: Pos3,
    blocks: Vec<usize>,
    mesh: Option<Vec<Face>>,
}

impl Chunk {
    pub closed spec fn coord_view(&self) -> (int, int, int) {
        self.coord@
    }

    pub closed spec fn blocks_view(&self) -> Seq<usize> {
        self.blocks@
    }

    pub closed spec fn mesh_view(&self) -> Option<Seq<Face>> {
        match self.mesh {
            Some(v) => Some(v@),
            None => None,
        }
    }

    pub open spec fn wf(&self) -> bool {
        &&& blocks_valid(self.blocks_view())
        &&& chunk_coord_in_range(self.coord_view())
    }

    /// A chunk with the given grid (flat, indexed by `cell_index`) at chunk coordinate
    /// `position`, without a mesh yet.
    pub fn from_blocks(blocks: Vec<usize>, position: Pos3) -> (r: Chunk)
        requires
            blocks_valid(blocks@),
            chunk_coord_in_range(position@),
        ensures
            r.wf(),
            r.coord_view() == position@,
            r.blocks_view() == blocks@,
            r.mesh_view().is_none(),
    {
        Chunk { coord: position, blocks, mesh: None }
    }

    /// Block at a local cell.
    pub fn block_at_chunk_pos(&self, chunk_index: &Local3) -> (r: usize)
        requires
            self.wf(),
            in_local_range(chunk_index@),
        ensures
            r == self.blocks_view()[cell_index(chunk_index@)],
            valid_block_id(r as int),
    {
        self.blocks[chunk_index.x * 256 + chunk_index.y * 16 + chunk_index.z]
    }

    pub fn coord(&self) -> (r: Pos3)
        ensures
            r@ == self.coord_view(),
    {
        self.coord
    }

    /// The chunk's generated faces, if a mesh was generated.
    pub fn mesh(&self) -> (r: Option<&Vec<Face>>)
        ensures
            match r {
                Some(v) => self.mesh_view() == Some(v@),
                None => self.mesh_view().is_none(),
            },
    {
        match &self.mesh {
            Some(v) => Some(v),
            None => None,
        }
    }
}

/// The set of loaded chunks, each with a mesh kept consistent with the blocks around it.
///
/// The chunks sit in a `Vec` with unique coordinates rather than in a `HashMap` keyed by
/// coordinate: vstd specifies `HashMap` only for keys with a hashing model (integers and
/// the like), which a coordinate triple does not have, so nothing could be proved of such
/// a map.
pub struct World {
    chunks: Vec<Chunk>,
}

impl View for World {
    type V = Grids;

    closed spec fn view(&self) -> Grids {
        Map::new(|c: (int, int, int)| self.has(c), |c: (int, int, int)| self.chunks@[self.slot(c)].blocks@)
    }
}

impl World {
    /// Whether chunk `c` is loaded.
    pub closed spec fn has(&self, c: (int, int, int)) -> bool {
        exists|i: int| 0 <= i < self.chunks@.len() && self.chunks@[i].coord@ == c
    }

    /// Where chunk `c` is stored.
    pub closed spec fn slot(&self, c: (int, int, int)) -> int {
        choose|i: int| 0 <= i < self.chunks@.len() && self.chunks@[i].coord@ == c
    }

    /// Generated mesh of each loaded chunk.
    pub closed spec fn meshes(&self) -> Map<(int, int, int), Option<Seq<Face>>> {
        Map::new(|c: (int, int, int)| self.has(c), |c: (int, int, int)| self.chunks@[self.slot(c)].mesh_view())
    }

    /// Each chunk is well formed, and no two chunks share a coordinate.
    pub closed spec fn store_wf(&self) -> bool {
        &&& forall|i: int| 0 <= i < self.chunks@.len() ==> (#[trigger] self.chunks@[i]).wf()
        &&& forall|i: int, j: int|
            0 <= i < self.chunks@.len() && 0 <= j < self.chunks@.len() && i != j ==> #[trigger] self.chunks@[i].coord@
                != #[trigger] self.chunks@[j].coord@
    }

    /// Every loaded chunk's mesh is the one its blocks and its neighbours' blocks give.
    pub open spec fn meshes_current(&self) -> bool {
        forall|c: (int, int, int)| #[trigger] self@.contains_key(c) ==> self.meshes()[c] == Some(mesh_of(self@, c))
    }

    /// The store is well formed and every mesh is current.
    pub open spec fn wf(&self) -> bool {
        &&& self.store_wf()
        &&& self.meshes().dom() == self@.dom()
        &&& self.meshes_current()
    }

    proof fn lemma_slot(&self, i: int)
        requires
            self.store_wf(),
            0 <= i < self.chunks@.len(),
        ensures
            self.has(self.chunks@[i].coord@),
            self.slot(self.chunks@[i].coord@) == i,
    {
        let c = self.chunks@[i].coord@;
        assert(self.has(c));
        let j = self.slot(c);
        assert(0 <= j < self.chunks@.len() && self.chunks@[j].coord@ == c);
    }

    /// Every loaded grid is valid, and exactly the loaded chunks have a mesh entry.
    pub proof fn lemma_view_valid(&self)
        requires
            self.store_wf(),
        ensures
            grids_valid(self@),
            self.meshes().dom() == self@.dom(),
    {
        assert forall|c: (int, int, int)| #[trigger] self@.contains_key(c) implies {
            &&& self@[c].len() == CHUNK_VOLUME
            &&& chunk_coord_in_range(c)
            &&& forall|i: int| 0 <= i < CHUNK_VOLUME ==> valid_block_id(#[trigger] self@[c][i] as int)
        } by {
            let j = self.slot(c);
            assert(self.chunks@[j].wf());
        }
        assert(self.meshes().dom() =~= self@.dom());
    }

    /// Position of chunk `c` in the store.
    fn find_chunk(&self, c: &Pos3) -> (r: Option<usize>)
        requires
            self.store_wf(),
        ensures
            match r {
                Some(i) => {
                    &&& i < self.chunks@.len()
                    &&& self.has(c@)
                    &&& self.slot(c@) == i
                    &&& self.chunks@[i as int].coord@ == c@
                },
                None => !self.has(c@),
            },
    {
        let mut i: usize = 0;
        while i < self.chunks.len()
            invariant
                i <= self.chunks@.len(),
                self.store_wf(),
                forall|k: int| 0 <= k < i ==> self.chunks@[k].coord@ != c@,
            decreases self.chunks@.len() - i,
        {
            let k = &self.chunks[i].coord;
            if k.x == c.x && k.y == c.y && k.z == c.z {
                proof {
                    self.lemma_slot(i as int);
                }
                return Some(i);
            }
            i = i + 1;
        }
        None
    }

    /// Block at world position `p` (air where its chunk is not loaded).
    pub fn block_at_global_pos(&self, world_pos: Pos3) -> (r: usize)
        requires
            self.wf(),
        ensures
            r == block_at(self@, world_pos@),
            valid_block_id(r as int),
    {
        let (chunk_index, block_index) = chunk_and_block_index(&world_pos);
        match self.find_chunk(&chunk_index) {
            Some(j) => {
                proof {
                    assert(self.chunks@[j as int].wf());
                    lemma_cell_at_index(block_index@);
                }
                self.chunks[j].block_at_chunk_pos(&block_index)
            },
            None => AIR,
        }
    }

    /// Whether the block at a voxel is solid (air, unloaded space and flora are not).
    pub fn collision_at_world_pos(&self, world_pos: Pos3) -> (r: bool)
        requires
            self.wf(),
        ensures
            r == is_solid(block_at(self@, world_pos@) as int),
    {
        block(self.block_at_global_pos(world_pos)).solid
    }

    /// Whether `a` locates the chunk across cube face `k` of chunk `c`.
    closed spec fn adjacent_ok(&self, c: (int, int, int), a: Option<usize>, k: int) -> bool {
        match a {
            Some(m) => {
                &&& m < self.chunks@.len()
                &&& self.has(add3(c, dir_offset(k)))
                &&& self.slot(add3(c, dir_offset(k))) == m
            },
            None => !self.has(add3(c, dir_offset(k))),
        }
    }

    /// Locates the six chunks across the faces of chunk `c`.
    fn adjacent_slots(&self, c: &Pos3) -> (r: [Option<usize>; 6])
        requires
            self.store_wf(),
            chunk_coord_in_range(c@),
        ensures
            forall|k: int| 0 <= k < 6 ==> self.adjacent_ok(c@, #[trigger] r@[k], k),
    {
        let r = [
            self.find_chunk(&Pos3 { x: c.x + 1, y: c.y, z: c.z }),
            self.find_chunk(&Pos3 { x: c.x - 1, y: c.y, z: c.z }),
            self.find_chunk(&Pos3 { x: c.x, y: c.y + 1, z: c.z }),
            self.find_chunk(&Pos3 { x: c.x, y: c.y - 1, z: c.z }),
            self.find_chunk(&Pos3 { x: c.x, y: c.y, z: c.z + 1 }),
            self.find_chunk(&Pos3 { x: c.x, y: c.y, z: c.z - 1 }),
        ];
        assert forall|k: int| 0 <= k < 6 implies self.adjacent_ok(c@, #[trigger] r@[k], k) by {
            if k == 0 {
            } else if k == 1 {
            } else if k == 2 {
            } else if k == 3 {
            } else if k == 4 {
            } else {
            }
        }
        r
    }

    proof fn lemma_lookup(&self, c: (int, int, int), l: (int, int, int))
        requires
            self.store_wf(),
            in_local_range(l),
        ensures
            loaded_block(self@, world_of(c, l)) == if self.has(c) {
                Some(self.chunks@[self.slot(c)].blocks@[cell_index(l)])
            } else {
                None
            },
    {
        lemma_recombine_splits(c, l);
    }

    /// Block across cube face `k` of cell `l` (flat index `i`) of the chunk in slot `j`.
    #[verifier::rlimit(50)]
    #[verifier::spinoff_prover]
    fn neighbour_block(&self, j: usize, adj: &[Option<usize>; 6], i: usize, l: &Local3, k: usize) -> (r:
        Option<usize>)
        requires
            self.store_wf(),
            j < self.chunks@.len(),
            i < CHUNK_VOLUME,
            l@ == cell_at(i as int),
            k < 6,
            forall|m: int| 0 <= m < 6 ==> self.adjacent_ok(self.chunks@[j as int].coord@, #[trigger] adj@[m], m),
        ensures
            r == loaded_block(self@, add3(world_of(self.chunks@[j as int].coord@, l@), dir_offset(k as int))),
            r matches Some(n) ==> valid_block_id(n as int),
    {
        proof {
            lemma_cell_index(i as int);
            self.lemma_slot(j as int);
            assert(self.chunks@[j as int].wf());
        }
        let ghost c = self.chunks@[j as int].coord@;
        let ghost a = adj@[k as int];
        assert(self.adjacent_ok(c, a, k as int));
        let ghost e = dir_offset(k as int);
        let ghost c2 = add3(c, e);
        let same = if k == 0 {
            l.x < 15
        } else if k == 1 {
            l.x > 0
        } else if k == 2 {
            l.y < 15
        } else if k == 3 {
            l.y > 0
        } else if k == 4 {
            l.z < 15
        } else {
            l.z > 0
        };
        if same {
            let n: usize = if k == 0 {
                i + 256
            } else if k == 1 {
                i - 256
            } else if k == 2 {
                i + 16
            } else if k == 3 {
                i - 16
            } else if k == 4 {
                i + 1
            } else {
                i - 1
            };
            proof {
                let l2 = add3(l@, e);
                self.lemma_lookup(c, l2);
                assert(world_of(c, l2) == add3(world_of(c, l@), e));
            }
            Some(self.chunks[j].blocks[n])
        } else {
            let n: usize = if k == 0 {
                i - 3840
            } else if k == 1 {
                i + 3840
            } else if k == 2 {
                i - 240
            } else if k == 3 {
                i + 240
            } else if k == 4 {
                i - 15
            } else {
                i + 15
            };
            proof {
                let l2 = if k == 0 {
                    (0, l@.1, l@.2)
                } else if k == 1 {
                    (15, l@.1, l@.2)
                } else if k == 2 {
                    (l@.0, 0, l@.2)
                } else if k == 3 {
                    (l@.0, 15, l@.2)
                } else if k == 4 {
                    (l@.0, l@.1, 0)
                } else {
                    (l@.0, l@.1, 15)
                };
                self.lemma_lookup(c2, l2);
                assert(world_of(c2, l2) == add3(world_of(c, l@), e));
            }
            match adj[k] {
                Some(m) => {
                    proof {
                        assert(self.chunks@[m as int].wf());
                    }
                    Some(self.chunks[m].blocks[n])
                },
                None => None,
            }
        }
    }

    /// Generates the mesh of the chunk in slot `j` from its blocks and its neighbours'.
    #[verifier::spinoff_prover]
    fn build_mesh(&self, j: usize) -> (r: Vec<Face>)
        requires
            self.store_wf(),
            j < self.chunks@.len(),
        ensures
            r@ == mesh_of(self@, self.chunks@[j as int].coord@),
    {
        proof {
            assert(self.chunks@[j as int].wf());
            self.lemma_slot(j as int);
        }
        let c = self.chunks[j].coord;
        let adj = self.adjacent_slots(&c);
        let mut faces: Vec<Face> = Vec::new();
        let mut i: usize = 0;
        while i < CHUNK_VOLUME
            invariant
                self.store_wf(),
                j < self.chunks@.len(),
                c@ == self.chunks@[j as int].coord@,
                self.has(c@),
                self.slot(c@) == j,
                forall|m: int| 0 <= m < 6 ==> self.adjacent_ok(c@, #[trigger] adj@[m], m),
                i <= CHUNK_VOLUME,
                faces@ == mesh_upto(self@, c@, i as int),
            decreases CHUNK_VOLUME - i,
        {
            let l = Local3 { x: i / 256, y: (i / 16) % 16, z: i % 16 };
            proof {
                lemma_cell_index(i as int);
                assert(self.chunks@[j as int].wf());
            }
            let id = self.chunks[j].blocks[i];
            let nb = [
                self.neighbour_block(j, &adj, i, &l, 0),
                self.neighbour_block(j, &adj, i, &l, 1),
                self.neighbour_block(j, &adj, i, &l, 2),
                self.neighbour_block(j, &adj, i, &l, 3),
                self.neighbour_block(j, &adj, i, &l, 4),
                self.neighbour_block(j, &adj, i, &l, 5),
            ];
            proof {
                let p = world_of(c@, l@);
                self.lemma_lookup(c@, l@);
                lemma_recombine_splits(c@, l@);
                assert(block_at(self@, p) == id);
                assert(nb@ =~= neighbours_of(self@, p));
                assert forall|k: int| 0 <= k < 6 implies (#[trigger] nb@[k] matches Some(n) ==> valid_block_id(n as int)) by {
                    if k == 0 {
                    } else if k == 1 {
                    } else if k == 2 {
                    } else if k == 3 {
                    } else if k == 4 {
                    } else {
                    }
                }
            }
            push_block_faces(&mut faces, id, &l, &nb);
            i = i + 1;
        }
        faces
    }

    /// `b` keeps the chunk coordinates of `a`, slot by slot.
    closed spec fn same_layout(a: &World, b: &World) -> bool {
        &&& a.chunks@.len() == b.chunks@.len()
        &&& forall|i: int| 0 <= i < a.chunks@.len() ==> (#[trigger] a.chunks@[i]).coord == b.chunks@[i].coord
    }

    proof fn lemma_same_layout(a: &World, b: &World)
        requires
            a.store_wf(),
            World::same_layout(a, b),
        ensures
            forall|c: (int, int, int)| a.has(c) == b.has(c),
            forall|c: (int, int, int)| a.has(c) ==> a.slot(c) == b.slot(c),
    {
        assert forall|c: (int, int, int)| a.has(c) == b.has(c) by {
            if a.has(c) {
                let i = a.slot(c);
                assert(b.chunks@[i].coord@ == c);
            }
            if b.has(c) {
                let i = b.slot(c);
                assert(a.chunks@[i].coord == b.chunks@[i].coord);
            }
        }
        assert forall|c: (int, int, int)| a.has(c) implies a.slot(c) == b.slot(c) by {
            let i = b.slot(c);
            assert(a.chunks@[i].coord == b.chunks@[i].coord);
            a.lemma_slot(i);
        }
    }

    /// Regenerates the mesh of the chunk in slot `j`.
    fn remesh(&mut self, j: usize)
        requires
            old(self).store_wf(),
            j < old(self).chunks@.len(),
        ensures
            final(self).store_wf(),
            World::same_layout(old(self), final(self)),
            final(self)@ == old(self)@,
            final(self).meshes() == refreshed(old(self)@, old(self).meshes(), old(self).chunks@[j as int].coord@),
    {
        let faces = self.build_mesh(j);
        proof {
            self.lemma_slot(j as int);
        }
        let ghost before = *self;
        self.chunks[j].mesh = Some(faces);
        proof {
            assert(World::same_layout(&before, self));
            World::lemma_same_layout(&before, self);
            assert forall|i: int| 0 <= i < self.chunks@.len() implies (#[trigger] self.chunks@[i]).wf() by {
                assert(before.chunks@[i].wf());
            }
            assert(self.store_wf());
            assert(self@ =~= before@);
            assert(self.meshes() =~= refreshed(before@, before.meshes(), before.chunks@[j as int].coord@));
        }
    }

    /// Regenerates the mesh of the chunk across cube face `k` of chunk `c`, if it is loaded.
    fn remesh_across(&mut self, c: &Pos3, k: usize)
        requires
            old(self).store_wf(),
            chunk_coord_in_range(c@),
            k < 6,
        ensures
            final(self).store_wf(),
            final(self)@ == old(self)@,
            final(self).meshes() == refreshed(old(self)@, old(self).meshes(), add3(c@, dir_offset(k as int))),
    {
        let adj = self.adjacent_slots(c);
        assert(self.adjacent_ok(c@, adj@[k as int], k as int));
        match adj[k] {
            Some(m) => {
                self.remesh(m);
            },
            None => {
                assert(self.meshes() =~= refreshed(self@, self.meshes(), add3(c@, dir_offset(k as int))));
            },
        }
    }

    /// Regenerates the mesh of chunk `chunk_index`, if it is loaded, from the blocks of the
    /// chunk and of the cells next to it across its faces.
    pub fn gen_chunk_mesh(&mut self, chunk_index: &Pos3)
        requires
            old(self).wf(),
        ensures
            final(self).wf(),
            regenerated(old(self), final(self), chunk_index@),
    {
        match self.find_chunk(chunk_index) {
            Some(j) => {
                self.remesh(j);
            },
            None => {
                assert(self.meshes() =~= refreshed(self@, self.meshes(), chunk_index@));
            },
        }
    }
}

/// What regenerating the mesh of chunk `c` does: blocks stay, and the chunk's mesh becomes
/// the one its surroundings give.
pub open spec fn regenerated(before: &World, after: &World, c: (int, int, int)) -> bool {
    &&& after@ == before@
    &&& after.meshes() == refreshed(before@, before.meshes(), c)
}

/// Regenerating an unchanged chunk's mesh a second time gives the same mesh: the same
/// faces, so the same vertex count and content.
pub proof fn lemma_regenerate_idempotent(w0: &World, w1: &World, w2: &World, c: (int, int, int))
    requires
        regenerated(w0, w1, c),
        regenerated(w1, w2, c),
    ensures
        w2@ == w1@,
        w2.meshes() == w1.meshes(),
{
    assert(w2.meshes() =~= w1.meshes());
}

impl World {
    /// An empty world: no chunk is loaded.
    pub fn new() -> (r: World)
        ensures
            r.wf(),
            r@ == Map::<(int, int, int), Seq<usize>>::empty(),
    {
        let r = World { chunks: Vec::new() };
        assert(r@ =~= Map::<(int, int, int), Seq<usize>>::empty());
        assert(r.meshes() =~= Map::<(int, int, int), Option<Seq<Face>>>::empty());
        r
    }

    /// Writes block `block_id` at world position `world_pos` if its chunk is loaded, then
    /// regenerates the meshes the write can change.
    #[verifier::spinoff_prover]
    fn set_block(&mut self, world_pos: Pos3, block_id: usize)
        requires
            old(self).wf(),
            valid_block_id(block_id as int),
        ensures
            final(self).wf(),
            final(self)@ == edited(old(self)@, world_pos@, block_id),
    {
        let (c, l) = chunk_and_block_index(&world_pos);
        match self.find_chunk(&c) {
            None => {
            },
            Some(j) => {
                let ghost p = world_pos@;
                let ghost before = *self;
                proof {
                    before.lemma_view_valid();
                    lemma_cell_at_index(l@);
                    assert(before.chunks@[j as int].wf());
                }
                let idx = l.x * 256 + l.y * 16 + l.z;
                self.chunks[j].blocks[idx] = block_id;
                let ghost s = Set::new(|d: (int, int, int)| affected_by(d, p));
                proof {
                    assert(World::same_layout(&before, self));
                    World::lemma_same_layout(&before, self);
                    assert forall|i: int| 0 <= i < self.chunks@.len() implies (#[trigger] self.chunks@[i]).wf() by {
                        assert(before.chunks@[i].wf());
                    }
                    assert(self.store_wf());
                    assert(self@ =~= edited(before@, p, block_id));
                    assert(self.meshes() =~= before.meshes());
                    assert forall|d: (int, int, int)| #[trigger] self@.contains_key(d) && !s.contains(d) implies self.meshes()[d]
                        == Some(mesh_of(self@, d)) by {
                        lemma_edit_frame(before@, p, block_id, d);
                    }
                }
                let ghost s0 = s;
                self.remesh(j);
                proof {
                    lemma_refresh(self@, before.meshes(), s0, c@);
                }
                let ghost s1 = s0.remove(c@);
                let ghost m1 = self.meshes();
                if l.x == 0 {
                    self.remesh_across(&c, 1);
                } else if l.x == 15 {
                    self.remesh_across(&c, 0);
                }
                let ghost kx: int = if l.x == 0 { 1 } else { 0 };
                proof {
                    if l.x == 0 || l.x == 15 {
                        lemma_refresh(self@, m1, s1, add3(c@, dir_offset(kx)));
                    }
                }
                let ghost s2 = if l.x == 0 || l.x == 15 { s1.remove(add3(c@, dir_offset(kx))) } else { s1 };
                let ghost m2 = self.meshes();
                if l.y == 0 {
                    self.remesh_across(&c, 3);
                } else if l.y == 15 {
                    self.remesh_across(&c, 2);
                }
                let ghost ky: int = if l.y == 0 { 3 } else { 2 };
                proof {
                    if l.y == 0 || l.y == 15 {
                        lemma_refresh(self@, m2, s2, add3(c@, dir_offset(ky)));
                    }
                }
                let ghost s3 = if l.y == 0 || l.y == 15 { s2.remove(add3(c@, dir_offset(ky))) } else { s2 };
                let ghost m3 = self.meshes();
                if l.z == 0 {
                    self.remesh_across(&c, 5);
                } else if l.z == 15 {
                    self.remesh_across(&c, 4);
                }
                let ghost kz: int = if l.z == 0 { 5 } else { 4 };
                proof {
                    if l.z == 0 || l.z == 15 {
                        lemma_refresh(self@, m3, s3, add3(c@, dir_offset(kz)));
                    }
                    let s4 = if l.z == 0 || l.z == 15 { s3.remove(add3(c@, dir_offset(kz))) } else { s3 };
                    assert(consistent_except(self@, self.meshes(), s4));
                    assert forall|d: (int, int, int)| #[trigger] self@.contains_key(d) implies self.meshes()[d] == Some(mesh_of(self@, d)) by {
                        if s4.contains(d) {
                            assert(affected_by(d, p));
                            if d != c@ {
                                let k = choose|k: int| 0 <= k < 6 && on_boundary(local_of(p), k) && d == add3(chunk_of(p), #[trigger] dir_offset(k));
                                assert(false);
                            }
                        }
                    }
                    self.lemma_view_valid();
                }
            },
        }
    }

    /// Removes the block at world position `world_pos` (writes air there) if its chunk is
    /// loaded, then regenerates the meshes the change can affect.
    pub fn destroy_at_global_pos(&mut self, world_pos: Pos3)
        requires
            old(self).wf(),
        ensures
            final(self).wf(),
            final(self)@ == edited(old(self)@, world_pos@, AIR),
    {
        self.set_block(world_pos, AIR);
    }

    /// Places block `block_id` at world position `world_pos` if its chunk is loaded, then
    /// regenerates the meshes the change can affect.
    pub fn place_at_global_pos(&mut self, world_pos: Pos3, block_id: usize)
        requires
            old(self).wf(),
            valid_block_id(block_id as int),
        ensures
            final(self).wf(),
            final(self)@ == edited(old(self)@, world_pos@, block_id),
    {
        self.set_block(world_pos, block_id);
    }

    /// Loads chunk `chunk_index` with the given grid (replacing a chunk already loaded
    /// there), then generates its mesh and regenerates those of the loaded chunks across its
    /// faces.
    #[verifier::spinoff_prover]
    pub fn chunk_from_block_array(&mut self, chunk_index: Pos3, blocks: Vec<usize>)
        requires
            old(self).wf(),
            blocks_valid(blocks@),
            chunk_coord_in_range(chunk_index@),
        ensures
            final(self).wf(),
            final(self)@ == old(self)@.insert(chunk_index@, blocks@),
    {
        let ghost c = chunk_index@;
        let ghost b = blocks@;
        let ghost before = *self;
        let ghost s = Set::new(|d: (int, int, int)| d == c || exists|k: int| 0 <= k < 6 && d == add3(c, #[trigger] dir_offset(k)));
        match self.find_chunk(&chunk_index) {
            Some(j) => {
                self.chunks[j].blocks = blocks;
                self.chunks[j].mesh = None;
                proof {
                    assert(World::same_layout(&before, self));
                    World::lemma_same_layout(&before, self);
                    assert forall|i: int| 0 <= i < self.chunks@.len() implies (#[trigger] self.chunks@[i]).wf() by {
                        assert(before.chunks@[i].wf());
                    }
                    assert(self@ =~= before@.insert(c, b));
                }
            },
            None => {
                self.chunks.push(Chunk::from_blocks(blocks, chunk_index));
                proof {
                    let n = before.chunks@.len() as int;
                    assert(self.chunks@[n].coord@ == c);
                    assert forall|i: int| 0 <= i < self.chunks@.len() implies (#[trigger] self.chunks@[i]).wf() by {
                        if i < n {
                            assert(before.chunks@[i].wf());
                        }
                    }
                    assert forall|i: int, k: int|
                        0 <= i < self.chunks@.len() && 0 <= k < self.chunks@.len() && i != k implies #[trigger] self.chunks@[i].coord@
                        != #[trigger] self.chunks@[k].coord@ by {
                        if i < n && k < n {
                        } else if i < n {
                            assert(before.chunks@[i].coord@ != c);
                        } else {
                            assert(before.chunks@[k].coord@ != c);
                        }
                    }
                    assert(self.store_wf());
                    self.lemma_slot(n);
                    assert forall|d: (int, int, int)| d != c implies self.has(d) == before.has(d) && (before.has(d) ==> self.slot(d)
                        == before.slot(d)) by {
                        if before.has(d) {
                            let i = before.slot(d);
                            self.lemma_slot(i);
                        }
                        if self.has(d) {
                            let i = self.slot(d);
                            assert(i < n);
                        }
                    }
                    assert(self@ =~= before@.insert(c, b));
                }
            },
        }
        proof {
            before.lemma_view_valid();
            assert forall|d: (int, int, int)| #[trigger] self@.contains_key(d) && !s.contains(d) implies self.meshes()[d]
                == Some(mesh_of(self@, d)) by {
                assert(d != c);
                assert forall|k: int| 0 <= k < 6 implies d != add3(c, #[trigger] dir_offset(k)) by {
                    if d == add3(c, dir_offset(k)) {
                        assert(s.contains(d));
                    }
                }
                lemma_insert_frame(before@, c, b, d);
            }
        }
        let ghost mut rest = s;
        match self.find_chunk(&chunk_index) {
            Some(j) => {
                self.remesh(j);
            },
            None => {
            },
        }
        proof {
            lemma_refresh(self@, before.meshes(), s, c);
            rest = s.remove(c);
        }
        let mut k: usize = 0;
        while k < 6
            invariant
                k <= 6,
                self.store_wf(),
                self@ == before@.insert(c, b),
                chunk_coord_in_range(chunk_index@),
                c == chunk_index@,
                consistent_except(self@, self.meshes(), rest),
                forall|d: (int, int, int)| #[trigger] rest.contains(d) ==> exists|m: int| k <= m < 6 && d == add3(c, #[trigger] dir_offset(m)),
            decreases 6 - k,
        {
            let ghost m0 = self.meshes();
            self.remesh_across(&chunk_index, k);
            proof {
                let e = add3(c, dir_offset(k as int));
                lemma_refresh(self@, m0, rest, e);
                rest = rest.remove(e);
                assert forall|d: (int, int, int)| #[trigger] rest.contains(d) implies exists|m: int| k + 1 <= m < 6 && d == add3(c, #[trigger] dir_offset(m)) by {
                    let m = choose|m: int| k <= m < 6 && d == add3(c, #[trigger] dir_offset(m));
                    if m == k {
                        assert(d == e);
                    }
                }
            }
            k = k + 1;
        }
        proof {
            assert forall|d: (int, int, int)| #[trigger] self@.contains_key(d) implies self.meshes()[d] == Some(mesh_of(self@, d)) by {
                assert(!rest.contains(d));
            }
            self.lemma_view_valid();
        }
    }

    /// Coordinates of the loaded chunks.
    pub fn chunk_coords(&self) -> (r: Vec<Pos3>)
        requires
            self.wf(),
        ensures
            forall|i: int| 0 <= i < r@.len() ==> self@.contains_key(#[trigger] r@[i]@),
            forall|c: (int, int, int)| #[trigger] self@.contains_key(c) ==> exists|i: int| 0 <= i < r@.len() && r@[i]@ == c,
    {
        let mut r: Vec<Pos3> = Vec::new();
        let mut i: usize = 0;
        while i < self.chunks.len()
            invariant
                i <= self.chunks@.len(),
                r@.len() == i,
                forall|m: int| 0 <= m < i ==> r@[m] == self.chunks@[m].coord,
            decreases self.chunks@.len() - i,
        {
            r.push(self.chunks[i].coord);
            i = i + 1;
        }
        proof {
            assert forall|m: int| 0 <= m < r@.len() implies self@.contains_key(#[trigger] r@[m]@) by {
                assert(self.chunks@[m].coord@ == r@[m]@);
            }
            assert forall|c: (int, int, int)| #[trigger] self@.contains_key(c) implies exists|m: int| 0 <= m < r@.len() && r@[m]@ == c by {
                let m = self.slot(c);
                assert(r@[m]@ == c);
            }
        }
        r
    }

    /// The generated faces of chunk `chunk_index`, if it is loaded.
    pub fn chunk_mesh(&self, chunk_index: &Pos3) -> (r: Option<&Vec<Face>>)
        requires
            self.wf(),
        ensures
            match r {
                Some(v) => self@.contains_key(chunk_index@) && self.meshes()[chunk_index@] == Some(v@),
                None => !self@.contains_key(chunk_index@) || self.meshes()[chunk_index@].is_none(),
            },
    {
        match self.find_chunk(chunk_index) {
            Some(j) => self.chunks[j].mesh(),
            None => None,
        }
    }

    /// Grows a tree rooted at cell `block_index` of `chunk`: the root becomes dirt, a log
    /// trunk rises four cells above it, and a 3x3x3 crown of leaves sits from three to five
    /// cells above it, without the four top corners. Nothing is placed where the crown would
    /// leave the chunk sideways or the root is above the fifth layer.
    pub fn place_tree(&mut self, block_index: Local3, chunk: &mut Chunk)
        requires
            old(chunk).wf(),
            in_local_range(block_index@),
        ensures
            *final(self) == *old(self),
            final(chunk).wf(),
            final(chunk).coord_view() == old(chunk).coord_view(),
            final(chunk).mesh_view() == old(chunk).mesh_view(),
            final(chunk).blocks_view() == if tree_fits(block_index@) {
                Seq::new(CHUNK_VOLUME as nat, |i: int| tree_block(block_index@, cell_at(i), old(chunk).blocks_view()[i]))
            } else {
                old(chunk).blocks_view()
            },
    {
        if block_index.x == 0 || block_index.x == CHUNK_SIZE - 1 || block_index.z == 0 || block_index.z == CHUNK_SIZE
            - 1 || block_index.y > 4 {
            return ;
        }
        let ghost before = chunk.blocks@;
        let mut i: usize = 0;
        while i < CHUNK_VOLUME
            invariant
                i <= CHUNK_VOLUME,
                tree_fits(block_index@),
                chunk.coord == old(chunk).coord,
                chunk.mesh == old(chunk).mesh,
                chunk.blocks@.len() == CHUNK_VOLUME,
                before == old(chunk).blocks@,
                blocks_valid(before),
                forall|m: int| 0 <= m < i ==> chunk.blocks@[m] == tree_block(block_index@, cell_at(m), before[m]),
                forall|m: int| i <= m < CHUNK_VOLUME ==> chunk.blocks@[m] == before[m],
            decreases CHUNK_VOLUME - i,
        {
            let l = Local3 { x: i / 256, y: (i / 16) % 16, z: i % 16 };
            let v = tree_cell(&block_index, &l, chunk.blocks[i]);
            chunk.blocks[i] = v;
            i = i + 1;
        }
        proof {
            assert(chunk.blocks@ =~= Seq::new(CHUNK_VOLUME as nat, |m: int| tree_block(block_index@, cell_at(m), before[m])));
            assert forall|m: int| 0 <= m < CHUNK_VOLUME implies valid_block_id(#[trigger] chunk.blocks@[m] as int) by {
                assert(valid_block_id(before[m] as int));
            }
        }
    }
}

/// Whether a tree rooted at `r` fits in its chunk.
pub open spec fn tree_fits(r: (int, int, int)) -> bool {
    0 < r.0 < 15 && 0 < r.2 < 15 && r.1 <= 4
}

/// Block at cell `l` after a tree grows from root `r` over block `old`.
pub open spec fn tree_block(r: (int, int, int), l: (int, int, int), old: usize) -> usize {
    let dx = l.0 - r.0;
    let dy = l.1 - r.1;
    let dz = l.2 - r.2;
    if dx == 0 && dz == 0 && 1 <= dy <= 4 {
        OAK_LOG
    } else if dx == 0 && dy == 0 && dz == 0 {
        DIRT
    } else if -1 <= dx <= 1 && -1 <= dz <= 1 && dy == 5 && dx != 0 && dz != 0 {
        AIR
    } else if -1 <= dx <= 1 && -1 <= dz <= 1 && 3 <= dy <= 5 {
        OAK_LEAVES
    } else {
        old
    }
}

fn tree_cell(r: &Local3, l: &Local3, old: usize) -> (v: usize)
    requires
        tree_fits(r@),
        in_local_range(l@),
    ensures
        v == tree_block(r@, l@, old),
{
    let dx = l.x as i64 - r.x as i64;
    let dy = l.y as i64 - r.y as i64;
    let dz = l.z as i64 - r.z as i64;
    if dx == 0 && dz == 0 && 1 <= dy && dy <= 4 {
        OAK_LOG
    } else if dx == 0 && dy == 0 && dz == 0 {
        DIRT
    } else if -1 <= dx && dx <= 1 && -1 <= dz && dz <= 1 && dy == 5 && dx != 0 && dz != 0 {
        AIR
    } else if -1 <= dx && dx <= 1 && -1 <= dz && dz <= 1 && 3 <= dy && dy <= 5 {
        OAK_LEAVES
    } else {
        old
    }
}

/// Height profile of one terrain column: the grass block sits at `surface`, stone fills
/// every cell below `stone_top`, dirt lies between, and air is above the grass.
#[derive(Clone, Copy, PartialEq, Eq, Structural, Debug)]
pub struct Column {
    pub surface: i64,
    pub stone_top: i64,
}

/// Block of terrain at height `y` in a column.
pub open spec fn terrain_block(y: int, col: Column) -> usize {
    if y > col.surface {
        AIR
    } else if y == col.surface {
        GRASS
    } else if y < col.stone_top {
        STONE
    } else {
        DIRT
    }
}

/// Grid of chunk `chunk_index` filled from its 256 column profiles, indexed `x * 16 + z`.
pub fn gen_terrain(chunk_index: &Pos3, columns: &Vec<Column>) -> (r: Vec<usize>)
    requires
        columns@.len() == 256,
        chunk_coord_in_range(chunk_index@),
    ensures
        blocks_valid(r@),
        forall|i: int|
            0 <= i < CHUNK_VOLUME ==> #[trigger] r@[i] == terrain_block(
                16 * chunk_index@.1 + cell_at(i).1,
                columns@[cell_at(i).0 * 16 + cell_at(i).2],
            ),
{
    let mut r: Vec<usize> = Vec::new();
    let mut i: usize = 0;
    while i < CHUNK_VOLUME
        invariant
            i <= CHUNK_VOLUME,
            r@.len() == i,
            columns@.len() == 256,
            chunk_coord_in_range(chunk_index@),
            forall|m: int|
                0 <= m < i ==> #[trigger] r@[m] == terrain_block(
                    16 * chunk_index@.1 + cell_at(m).1,
                    columns@[cell_at(m).0 * 16 + cell_at(m).2],
                ),
            forall|m: int| 0 <= m < i ==> valid_block_id(#[trigger] r@[m] as int),
        decreases CHUNK_VOLUME - i,
    {
        let x = i / 256;
        let y = (i / 16) % 16;
        let z = i % 16;
        proof {
            lemma_cell_index(i as int);
        }
        let col = columns[x * 16 + z];
        let gy = chunk_index.y * 16 + y as i64;
        let b = if gy > col.surface {
            AIR
        } else if gy == col.surface {
            GRASS
        } else if gy < col.stone_top {
            STONE
        } else {
            DIRT
        };
        r.push(b);
        i = i + 1;
    }
    r
}

/// Cube face across which face `k` looks back.
pub open spec fn opposite(k: int) -> int {
    if k % 2 == 0 {
        k + 1
    } else {
        k - 1
    }
}

/// Number of the first `k` cube faces of block `id` that its neighbours show.
pub open spec fn shown_count(id: int, nb: Seq<Option<usize>>, k: int) -> int
    decreases k,
{
    if k <= 0 {
        0
    } else {
        shown_count(id, nb, k - 1) + if shows_face(id, nb[k - 1]) {
            1int
        } else {
            0
        }
    }
}

proof fn lemma_cube_face_count(id: int, l: (int, int, int), nb: Seq<Option<usize>>, k: int)
    requires
        0 <= k <= 6,
    ensures
        cube_faces(id, l, nb, k).len() == shown_count(id, nb, k),
    decreases k,
{
    if k > 0 {
        lemma_cube_face_count(id, l, nb, k - 1);
    }
}

/// A cube block whose six neighbours are all air (or not loaded) shows all six faces:
/// 36 vertices.
pub proof fn lemma_isolated_block_faces(g: Grids, p: (int, int, int))
    requires
        block_at(g, p) != AIR,
        !is_crossed(block_at(g, p) as int),
        forall|k: int| 0 <= k < 6 ==> block_at(g, #[trigger] add3(p, dir_offset(k))) == AIR,
    ensures
        faces_at(g, p).len() == 6,
{
    let id = block_at(g, p) as int;
    let nb = neighbours_of(g, p);
    assert forall|k: int| 0 <= k < 6 implies shows_face(id, #[trigger] nb[k]) by {
        assert(block_at(g, add3(p, dir_offset(k))) == AIR);
    }
    lemma_cube_face_count(id, local_of(p), nb, 6);
    reveal_with_fuel(shown_count, 7);
}

/// Two equal cube blocks side by side, with air (or unloaded space) everywhere else around
/// them, hide the face each turns to the other: ten faces between them, not twelve.
#[verifier::spinoff_prover]
pub proof fn lemma_adjacent_blocks_faces(g: Grids, p: (int, int, int), k: int)
    requires
        0 <= k < 6,
        block_at(g, p) != AIR,
        !is_crossed(block_at(g, p) as int),
        block_at(g, add3(p, dir_offset(k))) == block_at(g, p),
        forall|m: int| 0 <= m < 6 && m != k ==> block_at(g, #[trigger] add3(p, dir_offset(m))) == AIR,
        forall|m: int|
            0 <= m < 6 && m != opposite(k) ==> block_at(g, #[trigger] add3(add3(p, dir_offset(k)), dir_offset(m))) == AIR,
    ensures
        faces_at(g, p).len() + faces_at(g, add3(p, dir_offset(k))).len() == 10,
{
    let id = block_at(g, p) as int;
    let q = add3(p, dir_offset(k));
    assert(add3(q, dir_offset(opposite(k))) == p);
    let nbp = neighbours_of(g, p);
    let nbq = neighbours_of(g, q);
    assert forall|m: int| 0 <= m < 6 implies (shows_face(id, #[trigger] nbp[m]) <==> m != k) by {
        if m == k {
            assert(loaded_block(g, q) == Some(block_at(g, p)));
        } else {
            assert(block_at(g, add3(p, dir_offset(m))) == AIR);
        }
    }
    assert forall|m: int| 0 <= m < 6 implies (shows_face(id, #[trigger] nbq[m]) <==> m != opposite(k)) by {
        if m == opposite(k) {
            assert(loaded_block(g, p) == Some(block_at(g, p)));
        } else {
            assert(block_at(g, add3(q, dir_offset(m))) == AIR);
        }
    }
    lemma_cube_face_count(id, local_of(p), nbp, 6);
    lemma_cube_face_count(id, local_of(q), nbq, 6);
    reveal_with_fuel(shown_count, 7);
    assert(shown_count(id, nbp, 6) == 5);
    assert(shown_count(id, nbq, 6) == 5);
}

/// The written cell (`m == 0`) and its six neighbours (`m` in 1..7): the cells whose faces
/// a write at `q` can change.
pub open spec fn touched(q: (int, int, int), m: int) -> (int, int, int) {
    if m == 0 {
        q
    } else {
        add3(q, dir_offset(m - 1))
    }
}

/// Change in the faces of cell `p` from grids `g` to `g2`.
pub open spec fn face_delta(g: Grids, g2: Grids, p: (int, int, int)) -> int {
    faces_at(g2, p).len() - faces_at(g, p).len()
}

/// Sum of the face changes of the first `m` touched cells that lie in chunk `c` at a cell
/// index below `n`.
pub open spec fn touched_sum(g: Grids, g2: Grids, c: (int, int, int), q: (int, int, int), n: int, m: int) -> int
    decreases m,
{
    if m <= 0 {
        0
    } else {
        let t = touched(q, m - 1);
        touched_sum(g, g2, c, q, n, m - 1) + if chunk_of(t) == c && cell_index(local_of(t)) < n {
            face_delta(g, g2, t)
        } else {
            0
        }
    }
}

proof fn lemma_edited_elsewhere(g: Grids, q: (int, int, int), v: usize, x: (int, int, int))
    requires
        grids_valid(g),
        x != q,
    ensures
        loaded_block(edited(g, q, v), x) == loaded_block(g, x),
{
    lemma_split_recombines(q);
    lemma_split_recombines(x);
    if chunk_of(x) == chunk_of(q) && g.contains_key(chunk_of(q)) {
        lemma_cell_at_index(local_of(x));
        lemma_cell_at_index(local_of(q));
    }
}

proof fn lemma_untouched_faces(g: Grids, q: (int, int, int), v: usize, p: (int, int, int))
    requires
        grids_valid(g),
        forall|m: int| 0 <= m < 7 ==> #[trigger] touched(q, m) != p,
    ensures
        faces_at(edited(g, q, v), p) == faces_at(g, p),
{
    let g2 = edited(g, q, v);
    assert(touched(q, 0) != p);
    lemma_edited_elsewhere(g, q, v, p);
    assert forall|k: int| 0 <= k < 6 implies neighbours_of(g2, p)[k] == neighbours_of(g, p)[k] by {
        assert(touched(q, opposite(k) + 1) != p);
        assert(add3(p, dir_offset(k)) != q);
        lemma_edited_elsewhere(g, q, v, add3(p, dir_offset(k)));
    }
    assert(neighbours_of(g2, p) =~= neighbours_of(g, p));
}

proof fn lemma_touched_step(g: Grids, g2: Grids, c: (int, int, int), q: (int, int, int), n: int, m: int)
    requires
        1 <= n <= CHUNK_VOLUME,
        0 <= m <= 7,
    ensures
        touched_sum(g, g2, c, q, n, m) - touched_sum(g, g2, c, q, n - 1, m) == if exists|j: int|
            0 <= j < m && #[trigger] touched(q, j) == world_of(c, cell_at(n - 1)) {
            face_delta(g, g2, world_of(c, cell_at(n - 1)))
        } else {
            0
        },
    decreases m,
{
    let p = world_of(c, cell_at(n - 1));
    lemma_cell_index(n - 1);
    lemma_recombine_splits(c, cell_at(n - 1));
    if m > 0 {
        lemma_touched_step(g, g2, c, q, n, m - 1);
        let t = touched(q, m - 1);
        lemma_split_recombines(t);
        lemma_cell_at_index(local_of(t));
        if chunk_of(t) == c && cell_index(local_of(t)) == n - 1 {
            assert(local_of(t) == cell_at(n - 1));
            assert(t == p);
            assert forall|j: int| 0 <= j < m - 1 implies #[trigger] touched(q, j) != p by {
                if j == 0 {
                } else if m - 1 == 0 {
                } else {
                }
            }
        } else {
            assert(t != p);
            if exists|j: int| 0 <= j < m && #[trigger] touched(q, j) == p {
                let j = choose|j: int| 0 <= j < m && #[trigger] touched(q, j) == p;
                assert(j != m - 1);
            }
        }
    }
}

proof fn lemma_mesh_upto_count(g: Grids, q: (int, int, int), v: usize, c: (int, int, int), n: int)
    requires
        grids_valid(g),
        0 <= n <= CHUNK_VOLUME,
    ensures
        mesh_upto(edited(g, q, v), c, n).len() == mesh_upto(g, c, n).len() + touched_sum(
            g,
            edited(g, q, v),
            c,
            q,
            n,
            7,
        ),
    decreases n,
{
    let g2 = edited(g, q, v);
    if n == 0 {
        assert(touched_sum(g, g2, c, q, 0, 7) == 0) by {
            reveal_with_fuel(touched_sum, 8);
        }
    } else {
        lemma_mesh_upto_count(g, q, v, c, n - 1);
        lemma_touched_step(g, g2, c, q, n, 7);
        let p = world_of(c, cell_at(n - 1));
        if !exists|j: int| 0 <= j < 7 && #[trigger] touched(q, j) == p {
            lemma_untouched_faces(g, q, v, p);
        }
    }
}

/// Writing one block changes the number of faces in a chunk's mesh (a sixth of its vertex
/// count) by exactly the change in faces of the written cell and of those of its six
/// neighbours that lie in that chunk: faces newly exposed count up, faces removed down.
pub proof fn lemma_edit_face_count(g: Grids, q: (int, int, int), v: usize, c: (int, int, int))
    requires
        grids_valid(g),
    ensures
        mesh_of(edited(g, q, v), c).len() == mesh_of(g, c).len() + touched_sum(
            g,
            edited(g, q, v),
            c,
            q,
            CHUNK_VOLUME as int,
            7,
        ),
{
    lemma_mesh_upto_count(g, q, v, c, CHUNK_VOLUME as int);
}

} // verus!
