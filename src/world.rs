use vstd::prelude::*;

use crate::block::Block;
use crate::chunk::{ChunkPos, CHUNK_SIZE};

verus! {

/// Chunk coordinate as a key of the chunk table.
pub type ChunkKey = (i32, i32, i32);

/// Table from chunk coordinates to chunk handles.
#[verifier::external_body]
pub struct ChunkTable {
    map: bevy::utils::HashMap<ChunkKey, u64>,
}

/// What a chunk table holds.
pub uninterp spec fn table_contents(t: ChunkTable) -> Map<ChunkKey, u64>;

impl ChunkTable {
    /// Relies on `Default` of bevy's `HashMap` (hashbrown): a map with no entries.
    #[verifier::external_body]
    pub(crate) fn empty() -> (table: ChunkTable)
        ensures
            table_contents(table).dom() == Set::<ChunkKey>::empty(),
    {
        ChunkTable { map: bevy::utils::HashMap::default() }
    }

    /// Relies on hashbrown's `HashMap::get`: the value stored under the key, if any.
    #[verifier::external_body]
    pub(crate) fn get(&self, key: ChunkKey) -> (r: Option<u64>)
        ensures
            r == (if table_contents(*self).contains_key(key) {
                Some(table_contents(*self)[key])
            } else {
                None
            }),
    {
        self.map.get(&key).copied()
    }

    /// Relies on hashbrown's `HashMap::contains_key`: whether the key has a value.
    #[verifier::external_body]
    pub(crate) fn contains_key(&self, key: ChunkKey) -> (r: bool)
        ensures
            r == table_contents(*self).contains_key(key),
    {
        self.map.contains_key(&key)
    }

    /// Relies on hashbrown's `HashMap::insert`: the key now maps to the value,
    /// every other entry unchanged.
    #[verifier::external_body]
    pub(crate) fn insert(&mut self, key: ChunkKey, value: u64)
        ensures
            table_contents(*final(self)) == table_contents(*old(self)).insert(key, value),
    {
        self.map.insert(key, value);
    }
}

/// The handle stored for chunk coordinate `(x, y, z)`; a coordinate outside
/// the range of `i32` holds no chunk.
pub open spec fn lookup(m: Map<ChunkKey, u64>, x: int, y: int, z: int) -> Option<u64> {
    if i32::MIN <= x <= i32::MAX && i32::MIN <= y <= i32::MAX && i32::MIN <= z <= i32::MAX
        && m.contains_key((x as i32, y as i32, z as i32)) {
        Some(m[(x as i32, y as i32, z as i32)])
    } else {
        None
    }
}

/// Handles of the six chunks next to a chunk, each `None` when not loaded.
#[derive(Debug, Clone, Copy, PartialEq, Eq, Structural)]
pub struct ChunkNeighbors {
    pub left: Option<u64>,
    pub right: Option<u64>,
    pub bottom: Option<u64>,
    pub top: Option<u64>,
    pub back: Option<u64>,
    pub front: Option<u64>,
}

pub open spec fn neighbors_of(m: Map<ChunkKey, u64>, p: ChunkPos) -> ChunkNeighbors {
    ChunkNeighbors {
        left: lookup(m, p.x - 1, p.y as int, p.z as int),
        right: lookup(m, p.x + 1, p.y as int, p.z as int),
        bottom: lookup(m, p.x as int, p.y - 1, p.z as int),
        top: lookup(m, p.x as int, p.y + 1, p.z as int),
        back: lookup(m, p.x as int, p.y as int, p.z - 1),
        front: lookup(m, p.x as int, p.y as int, p.z + 1),
    }
}

pub open spec fn opt_seq(o: Option<u64>) -> Seq<u64> {
    match o {
        Some(h) => seq![h],
        None => Seq::empty(),
    }
}

/// The loaded neighbours, in the order left, right, front, back, top, bottom.
pub open spec fn loaded_neighbors(n: ChunkNeighbors) -> Seq<u64> {
    opt_seq(n.left) + opt_seq(n.right) + opt_seq(n.front) + opt_seq(n.back) + opt_seq(n.top)
        + opt_seq(n.bottom)
}

/// The coordinate the load queue hands out next, popping from its end and
/// skipping coordinates already loaded, with the queue that remains.
pub open spec fn next_pending(queue: Seq<ChunkPos>, loaded: Map<ChunkKey, u64>) -> (Seq<ChunkPos>, Option<ChunkPos>)
    decreases queue.len(),
{
    if queue.len() == 0 {
        (queue, None)
    } else {
        let p = queue.last();
        if loaded.contains_key((p.x, p.y, p.z)) {
            next_pending(queue.drop_last(), loaded)
        } else {
            (queue.drop_last(), Some(p))
        }
    }
}

/// The loaded chunks of a world and the coordinates waiting to be generated.
pub struct VoxelWorld {
    pub chunks: ChunkTable,
    pub next_chunks: Vec<ChunkPos>,
}

/// A block edit addressed to one loaded chunk.
#[derive(Debug, Clone, Copy, PartialEq, Eq, Structural)]
pub struct BlockEdit {
    pub chunk: u64,
    pub x: usize,
    pub y: usize,
    pub z: usize,
    pub block: Block,
    pub health: u8,
}

/// Chunk coordinate and in-chunk offset of world cell coordinate `v`:
/// `c * N <= v < c * N + N` and `o == v - c * N`.
pub fn split_coord(v: i32) -> (r: (i32, usize))
    ensures
        r.0 * CHUNK_SIZE <= v < r.0 * CHUNK_SIZE + CHUNK_SIZE,
        r.1 == v - r.0 * CHUNK_SIZE,
        r.1 < CHUNK_SIZE,
{
    if v >= 0 {
        let u = v as u32;
        proof {
            assert(u == (u / 15) * 15 + u % 15 && u % 15 < 15) by (nonlinear_arith);
        }
        let c = (u / CHUNK_SIZE as u32) as i32;
        let o = (u % CHUNK_SIZE as u32) as usize;
        (c, o)
    } else {
        let m = (-(v + 1)) as u32;
        proof {
            assert(m == (m / 15) * 15 + m % 15 && m % 15 < 15) by (nonlinear_arith);
        }
        let q = m / CHUNK_SIZE as u32;
        let c = -(q as i32) - 1;
        let o = (CHUNK_SIZE as u32 - 1 - m % CHUNK_SIZE as u32) as usize;
        (c, o)
    }
}

impl VoxelWorld {
    pub open spec fn loaded(self) -> Map<ChunkKey, u64> {
        table_contents(self.chunks)
    }

    /// A world with no chunk loaded and none queued.
    pub fn new() -> (r: Self)
        ensures
            r.loaded().dom() == Set::<ChunkKey>::empty(),
            r.next_chunks@ == Seq::<ChunkPos>::empty(),
    {
        VoxelWorld { chunks: ChunkTable::empty(), next_chunks: Vec::new() }
    }

    /// `self` with `chunks` queued for generation.
    pub fn with_generation(self, chunks: Vec<ChunkPos>) -> (r: Self)
        ensures
            r.loaded() == self.loaded(),
            r.next_chunks@ == self.next_chunks@ + chunks@,
    {
        let mut world = self;
        world.generate(chunks);
        world
    }

    /// Queues `chunks` for generation, after those already queued.
    pub fn generate(&mut self, chunks: Vec<ChunkPos>)
        ensures
            final(self).loaded() == old(self).loaded(),
            final(self).next_chunks@ == old(self).next_chunks@ + chunks@,
    {
        let mut chunks = chunks;
        self.next_chunks.append(&mut chunks);
    }

    fn at(&self, x: i32, dx: i32, y: i32, dy: i32, z: i32, dz: i32) -> (r: Option<u64>)
        requires
            -1 <= dx <= 1,
            -1 <= dy <= 1,
            -1 <= dz <= 1,
        ensures
            r == lookup(self.loaded(), x + dx, y + dy, z + dz),
    {
        let (ok_x, nx) = shift(x, dx);
        let (ok_y, ny) = shift(y, dy);
        let (ok_z, nz) = shift(z, dz);
        if ok_x && ok_y && ok_z {
            self.chunks.get((nx, ny, nz))
        } else {
            None
        }
    }

    /// The six chunks next to `pos`.
    pub fn neighbours(&self, pos: ChunkPos) -> (r: ChunkNeighbors)
        ensures
            r == neighbors_of(self.loaded(), pos),
    {
        let ChunkPos { x, y, z } = pos;
        ChunkNeighbors {
            left: self.at(x, -1, y, 0, z, 0),
            right: self.at(x, 1, y, 0, z, 0),
            bottom: self.at(x, 0, y, -1, z, 0),
            top: self.at(x, 0, y, 1, z, 0),
            back: self.at(x, 0, y, 0, z, -1),
            front: self.at(x, 0, y, 0, z, 1),
        }
    }

    /// The chunks whose meshes must be rebuilt after an edit of the chunk at
    /// `pos`: its loaded neighbours, in the order left, right, front, back,
    /// top, bottom.
    pub fn update_neighbors(&self, pos: ChunkPos) -> (r: Vec<u64>)
        ensures
            r@ == loaded_neighbors(neighbors_of(self.loaded(), pos)),
    {
        let n = self.neighbours(pos);
        let mut r: Vec<u64> = Vec::new();
        let order = [n.left, n.right, n.front, n.back, n.top, n.bottom];
        let mut i: usize = 0;
        while i < 6
            invariant
                i <= 6,
                order@ == seq![n.left, n.right, n.front, n.back, n.top, n.bottom],
                r@ == opt_prefix(order@, i as int),
            decreases 6 - i,
        {
            if let Some(h) = order[i] {
                r.push(h);
            }
            proof {
                assert(opt_prefix(order@, i + 1) == opt_prefix(order@, i as int) + opt_seq(order@[i as int]));
            }
            i += 1;
        }
        proof {
            assert(opt_prefix(order@, 6) =~= loaded_neighbors(n)) by {
                reveal_with_fuel(opt_prefix, 7);
            }
        }
        r
    }

    /// Records that the chunk at `pos` is loaded under `handle`.
    pub fn insert_chunk(&mut self, pos: ChunkPos, handle: u64)
        ensures
            final(self).loaded() == old(self).loaded().insert((pos.x, pos.y, pos.z), handle),
            final(self).next_chunks@ == old(self).next_chunks@,
    {
        self.chunks.insert((pos.x, pos.y, pos.z), handle);
    }

    pub fn is_loaded(&self, pos: ChunkPos) -> (r: bool)
        ensures
            r == self.loaded().contains_key((pos.x, pos.y, pos.z)),
    {
        self.chunks.contains_key((pos.x, pos.y, pos.z))
    }

    /// Pops the next queued coordinate that is not loaded yet (last queued
    /// first), dropping the loaded ones met on the way.
    pub fn drain_pending(&mut self) -> (r: Option<ChunkPos>)
        ensures
            final(self).loaded() == old(self).loaded(),
            (final(self).next_chunks@, r) == next_pending(old(self).next_chunks@, old(self).loaded()),
    {
        loop
            invariant
                self.loaded() == old(self).loaded(),
                next_pending(self.next_chunks@, self.loaded()) == next_pending(
                    old(self).next_chunks@,
                    old(self).loaded(),
                ),
            decreases self.next_chunks@.len(),
        {
            match self.next_chunks.pop() {
                None => {
                    return None;
                },
                Some(p) => {
                    if !self.chunks.contains_key((p.x, p.y, p.z)) {
                        return Some(p);
                    }
                },
            }
        }
    }

    /// The edit that sets world cell `(x, y, z)` to `block` with `health`:
    /// the handle of the chunk holding that cell and the cell's offset in
    /// it; `None` when that chunk is not loaded.
    pub fn set_block(&self, x: i32, y: i32, z: i32, block: Block, health: u8) -> (r: Option<BlockEdit>)
        ensures
            r matches Some(e) ==> {
                let c = (
                    (x - e.x) / CHUNK_SIZE as int,
                    (y - e.y) / CHUNK_SIZE as int,
                    (z - e.z) / CHUNK_SIZE as int,
                );
                &&& e.x < CHUNK_SIZE && e.y < CHUNK_SIZE && e.z < CHUNK_SIZE
                &&& (x - e.x) % CHUNK_SIZE as int == 0
                &&& (y - e.y) % CHUNK_SIZE as int == 0
                &&& (z - e.z) % CHUNK_SIZE as int == 0
                &&& lookup(self.loaded(), c.0, c.1, c.2) == Some(e.chunk)
                &&& e.block == block && e.health == health
            },
            r is None ==> forall|cx: int, cy: int, cz: int|
                cx * CHUNK_SIZE <= x < cx * CHUNK_SIZE + CHUNK_SIZE && cy * CHUNK_SIZE <= y < cy * CHUNK_SIZE
                    + CHUNK_SIZE && cz * CHUNK_SIZE <= z < cz * CHUNK_SIZE + CHUNK_SIZE ==> #[trigger] lookup(
                    self.loaded(),
                    cx,
                    cy,
                    cz,
                ) is None,
    {
        let (cx, ox) = split_coord(x);
        let (cy, oy) = split_coord(y);
        let (cz, oz) = split_coord(z);
        match self.chunks.get((cx, cy, cz)) {
            Some(h) => {
                proof {
                    assert((x - ox) == cx * CHUNK_SIZE);
                    assert((x - ox) / CHUNK_SIZE as int == cx) by (nonlinear_arith)
                        requires
                            x - ox == cx * 15,
                    ;
                    assert((y - oy) / CHUNK_SIZE as int == cy) by (nonlinear_arith)
                        requires
                            y - oy == cy * 15,
                    ;
                    assert((z - oz) / CHUNK_SIZE as int == cz) by (nonlinear_arith)
                        requires
                            z - oz == cz * 15,
                    ;
                    assert((x - ox) % CHUNK_SIZE as int == 0) by (nonlinear_arith)
                        requires
                            x - ox == cx * 15,
                    ;
                    assert((y - oy) % CHUNK_SIZE as int == 0) by (nonlinear_arith)
                        requires
                            y - oy == cy * 15,
                    ;
                    assert((z - oz) % CHUNK_SIZE as int == 0) by (nonlinear_arith)
                        requires
                            z - oz == cz * 15,
                    ;
                }
                Some(BlockEdit { chunk: h, x: ox, y: oy, z: oz, block, health })
            },
            None => {
                proof {
                    assert forall|ax: int, ay: int, az: int|
                        ax * CHUNK_SIZE <= x < ax * CHUNK_SIZE + CHUNK_SIZE && ay * CHUNK_SIZE <= y < ay * CHUNK_SIZE
                            + CHUNK_SIZE && az * CHUNK_SIZE <= z < az * CHUNK_SIZE + CHUNK_SIZE implies #[trigger] lookup(
                            self.loaded(),
                            ax,
                            ay,
                            az,
                        ) is None by {
                        lemma_floor_unique(ax, cx as int, x as int);
                        lemma_floor_unique(ay, cy as int, y as int);
                        lemma_floor_unique(az, cz as int, z as int);
                    }
                }
                None
            },
        }
    }
}

proof fn lemma_floor_unique(c: int, d: int, v: int)
    requires
        c * CHUNK_SIZE <= v < c * CHUNK_SIZE + CHUNK_SIZE,
        d * CHUNK_SIZE <= v < d * CHUNK_SIZE + CHUNK_SIZE,
    ensures
        c == d,
{
}

/// The loaded handles among the first `n` options, in order.
pub open spec fn opt_prefix(s: Seq<Option<u64>>, n: int) -> Seq<u64>
    decreases n,
{
    if n <= 0 {
        Seq::empty()
    } else {
        opt_prefix(s, n - 1) + opt_seq(s[n - 1])
    }
}

/// `v + d` and whether it fits in `i32`.
fn shift(v: i32, d: i32) -> (r: (bool, i32))
    requires
        -1 <= d <= 1,
    ensures
        r.0 <==> i32::MIN <= v + d <= i32::MAX,
        r.0 ==> r.1 == v + d,
{
    if d < 0 && v == i32::MIN {
        (false, 0)
    } else if d > 0 && v == i32::MAX {
        (false, 0)
    } else {
        (true, v + d)
    }
}

} // verus!
