use vstd::prelude::*;

use crate::block::Block;

verus! {

/// Side length of a chunk, in cells.
pub const CHUNK_SIZE: usize = 15;

/// Coordinate of a chunk on the chunk grid (not in world cells).
#[derive(Debug, Clone, Copy, PartialEq, Eq, Structural)]
pub struct ChunkPos {
    pub x: i32,
    pub y: i32,
    pub z: i32,
}

impl ChunkPos {
    pub fn new(x: i32, y: i32, z: i32) -> (r: Self)
        ensures
            r == (ChunkPos { x, y, z }),
    {
        ChunkPos { x, y, z }
    }
}

/// Failure of a coordinate-taking chunk accessor.
#[derive(Debug, Clone, Copy, PartialEq, Eq, Structural)]
pub enum ChunkError {
    /// One of the coordinates is not below `CHUNK_SIZE`.
    IndexOutOfBounds { x: usize, y: usize, z: usize },
}

/// Bit `i` of an occupancy word.
pub open spec fn bit(w: u32, i: u32) -> bool {
    (w >> i) & 1u32 == 1u32
}

/// A line word uses only the low `CHUNK_SIZE` bits.
pub open spec fn word_fits(w: u32) -> bool {
    w < 0x8000u32
}

pub open spec fn in_chunk(x: int, y: int, z: int) -> bool {
    0 <= x < CHUNK_SIZE && 0 <= y < CHUNK_SIZE && 0 <= z < CHUNK_SIZE
}

/// Position of cell `(x, y, z)` in the flat cell array (x fastest).
pub open spec fn cell_index(x: int, y: int, z: int) -> int {
    x + y * CHUNK_SIZE + z * CHUNK_SIZE * CHUNK_SIZE
}

/// Position of the line word for in-plane coordinates `(a, b)`.
pub open spec fn line_index(a: int, b: int) -> int {
    a + b * CHUNK_SIZE
}

/// The packed byte of a cell: block identifier in the low nibble, health in the high one.
pub open spec fn pack_cell(block: Block, health: u8) -> u8 {
    block.id() | ((health & 15u8) << 4u8)
}

/// A cubic region of voxels with three per-axis occupancy bit-planes.
///
/// `x_axis[y + z * N]` holds bit `x` for each occupied cell of the line
/// along x; likewise `y_axis[x + z * N]` and `z_axis[x + y * N]`.
#[derive(Debug)]
pub struct Chunk {
    pub pos: ChunkPos,
    pub blocks: Vec<u8>,
    pub x_axis: Vec<u32>,
    pub y_axis: Vec<u32>,
    pub z_axis: Vec<u32>,
}

impl Chunk {
    pub open spec fn cell(self, x: int, y: int, z: int) -> u8 {
        self.blocks@[cell_index(x, y, z)]
    }

    pub open spec fn block_at(self, x: int, y: int, z: int) -> Block {
        Block::from_id(self.cell(x, y, z) & 15u8)
    }

    pub open spec fn health_at(self, x: int, y: int, z: int) -> u8 {
        self.cell(x, y, z) >> 4u8
    }

    pub open spec fn occupied(self, x: int, y: int, z: int) -> bool {
        self.block_at(x, y, z) != Block::Air
    }

    pub open spec fn x_bit(self, x: int, y: int, z: int) -> bool {
        bit(self.x_axis@[line_index(y, z)], x as u32)
    }

    pub open spec fn y_bit(self, x: int, y: int, z: int) -> bool {
        bit(self.y_axis@[line_index(x, z)], y as u32)
    }

    pub open spec fn z_bit(self, x: int, y: int, z: int) -> bool {
        bit(self.z_axis@[line_index(x, y)], z as u32)
    }

    /// Sizes are right, line words use only the low bits, and every axis
    /// bit equals the occupancy of its cell.
    pub open spec fn wf(self) -> bool {
        &&& self.blocks@.len() == CHUNK_SIZE * CHUNK_SIZE * CHUNK_SIZE
        &&& self.x_axis@.len() == CHUNK_SIZE * CHUNK_SIZE
        &&& self.y_axis@.len() == CHUNK_SIZE * CHUNK_SIZE
        &&& self.z_axis@.len() == CHUNK_SIZE * CHUNK_SIZE
        &&& forall|l: int| 0 <= l < CHUNK_SIZE * CHUNK_SIZE ==> word_fits(#[trigger] self.x_axis@[l])
        &&& forall|l: int| 0 <= l < CHUNK_SIZE * CHUNK_SIZE ==> word_fits(#[trigger] self.y_axis@[l])
        &&& forall|l: int| 0 <= l < CHUNK_SIZE * CHUNK_SIZE ==> word_fits(#[trigger] self.z_axis@[l])
        &&& forall|x: int, y: int, z: int|
            #![trigger self.x_bit(x, y, z)]
            in_chunk(x, y, z) ==> self.x_bit(x, y, z) == self.occupied(x, y, z)
        &&& forall|x: int, y: int, z: int|
            #![trigger self.y_bit(x, y, z)]
            in_chunk(x, y, z) ==> self.y_bit(x, y, z) == self.occupied(x, y, z)
        &&& forall|x: int, y: int, z: int|
            #![trigger self.z_bit(x, y, z)]
            in_chunk(x, y, z) ==> self.z_bit(x, y, z) == self.occupied(x, y, z)
    }

    /// What `get_block` answers.
    pub open spec fn block_result(self, x: usize, y: usize, z: usize) -> Result<Block, ChunkError> {
        if in_chunk(x as int, y as int, z as int) {
            Ok(self.block_at(x as int, y as int, z as int))
        } else {
            Err(ChunkError::IndexOutOfBounds { x, y, z })
        }
    }

    /// What `get_health` answers.
    pub open spec fn health_result(self, x: usize, y: usize, z: usize) -> Result<u8, ChunkError> {
        if in_chunk(x as int, y as int, z as int) {
            Ok(self.health_at(x as int, y as int, z as int))
        } else {
            Err(ChunkError::IndexOutOfBounds { x, y, z })
        }
    }

    /// `after` is `self` with cell `(x, y, z)` holding `block` and the low
    /// four bits of `health`, every other cell as it was.
    pub open spec fn with_block(
        self,
        after: Chunk,
        x: int,
        y: int,
        z: int,
        block: Block,
        health: u8,
    ) -> bool {
        &&& after.pos == self.pos
        &&& forall|a: int, b: int, c: int|
            #![trigger after.block_at(a, b, c)]
            in_chunk(a, b, c) ==> after.block_at(a, b, c) == (if a == x && b == y && c == z {
                block
            } else {
                self.block_at(a, b, c)
            })
        &&& forall|a: int, b: int, c: int|
            #![trigger after.health_at(a, b, c)]
            in_chunk(a, b, c) ==> after.health_at(a, b, c) == (if a == x && b == y && c == z {
                health % 16
            } else {
                self.health_at(a, b, c)
            })
    }

    /// An empty chunk: every cell is `Air` with full health (15).
    pub fn new(pos: ChunkPos) -> (r: Self)
        ensures
            r.wf(),
            r.pos == pos,
            forall|x: int, y: int, z: int|
                in_chunk(x, y, z) ==> #[trigger] r.block_at(x, y, z) == Block::Air
                    && r.health_at(x, y, z) == 15,
    {
        let empty: u8 = (15u8 << 4u8) | Block::Air.as_u8();
        assert(empty == 240u8) by (bit_vector)
            requires
                empty == (15u8 << 4u8) | 0u8,
        ;
        let blocks: Vec<u8> = vec![empty; CHUNK_SIZE * CHUNK_SIZE * CHUNK_SIZE];
        let x_axis: Vec<u32> = vec![0u32; CHUNK_SIZE * CHUNK_SIZE];
        let y_axis: Vec<u32> = vec![0u32; CHUNK_SIZE * CHUNK_SIZE];
        let z_axis: Vec<u32> = vec![0u32; CHUNK_SIZE * CHUNK_SIZE];
        let r = Chunk { pos, blocks, x_axis, y_axis, z_axis };
        assert(240u8 & 15u8 == 0u8 && 240u8 >> 4u8 == 15u8) by (bit_vector);
        assert forall|i: u32| !bit(0u32, i) by {
            assert((0u32 >> i) & 1u32 == 0u32) by (bit_vector);
        }
        proof {
            assert forall|x: int, y: int, z: int| in_chunk(x, y, z) implies
                0 <= #[trigger] cell_index(x, y, z) < CHUNK_SIZE * CHUNK_SIZE * CHUNK_SIZE by {
                lemma_cell_index_bounds(x, y, z);
            }
            assert forall|a: int, b: int| 0 <= a < CHUNK_SIZE && 0 <= b < CHUNK_SIZE implies
                0 <= #[trigger] line_index(a, b) < CHUNK_SIZE * CHUNK_SIZE by {
                lemma_line_index_bounds(a, b);
            }
        }
        r
    }

    /// The packed cells, flat, x fastest then y then z (the density volume).
    pub fn blocks(&self) -> (r: Vec<u8>)
        ensures
            r@ == self.blocks@,
    {
        self.blocks.clone()
    }

    pub fn get_block(&self, x: usize, y: usize, z: usize) -> (r: Result<Block, ChunkError>)
        requires
            self.wf(),
        ensures
            r == self.block_result(x, y, z),
    {
        if x >= CHUNK_SIZE || y >= CHUNK_SIZE || z >= CHUNK_SIZE {
            return Err(ChunkError::IndexOutOfBounds { x, y, z });
        }
        proof {
            lemma_cell_index_bounds(x as int, y as int, z as int);
        }
        let idx = x + y * CHUNK_SIZE + z * CHUNK_SIZE * CHUNK_SIZE;
        Ok(Block::from(self.blocks[idx] & 15u8))
    }

    pub fn get_health(&self, x: usize, y: usize, z: usize) -> (r: Result<u8, ChunkError>)
        requires
            self.wf(),
        ensures
            r == self.health_result(x, y, z),
    {
        if x >= CHUNK_SIZE || y >= CHUNK_SIZE || z >= CHUNK_SIZE {
            return Err(ChunkError::IndexOutOfBounds { x, y, z });
        }
        proof {
            lemma_cell_index_bounds(x as int, y as int, z as int);
        }
        let idx = x + y * CHUNK_SIZE + z * CHUNK_SIZE * CHUNK_SIZE;
        Ok(self.blocks[idx] >> 4u8)
    }
}

pub proof fn lemma_cell_index_bounds(x: int, y: int, z: int)
    requires
        in_chunk(x, y, z),
    ensures
        0 <= cell_index(x, y, z) < CHUNK_SIZE * CHUNK_SIZE * CHUNK_SIZE,
{
}

pub proof fn lemma_line_index_bounds(a: int, b: int)
    requires
        0 <= a < CHUNK_SIZE,
        0 <= b < CHUNK_SIZE,
    ensures
        0 <= line_index(a, b) < CHUNK_SIZE * CHUNK_SIZE,
{
}


impl Chunk {
    /// Stores `block` and the low four bits of `health` at `(x, y, z)` and
    /// sets or clears that cell's bit in the three axis words.
    pub fn set_block(
        &mut self,
        x: usize,
        y: usize,
        z: usize,
        block: Block,
        health: u8,
    ) -> (r: Result<(), ChunkError>)
        requires
            old(self).wf(),
        ensures
            final(self).wf(),
            r is Ok <==> in_chunk(x as int, y as int, z as int),
            r is Ok ==> old(self).with_block(*final(self), x as int, y as int, z as int, block, health),
            r is Err ==> r == Err::<(), ChunkError>(ChunkError::IndexOutOfBounds { x, y, z })
                && *final(self) == *old(self),
    {
        if x >= CHUNK_SIZE || y >= CHUNK_SIZE || z >= CHUNK_SIZE {
            return Err(ChunkError::IndexOutOfBounds { x, y, z });
        }
        let ghost before = *self;
        proof {
            lemma_cell_index_bounds(x as int, y as int, z as int);
            lemma_line_index_bounds(y as int, z as int);
            lemma_line_index_bounds(x as int, z as int);
            lemma_line_index_bounds(x as int, y as int);
        }
        let id = block.as_u8();
        let cell: u8 = id | ((health & 15u8) << 4u8);
        proof {
            lemma_pack(id, health);
            crate::block::lemma_block_id_round_trip(block);
        }
        let idx = x + y * CHUNK_SIZE + z * CHUNK_SIZE * CHUNK_SIZE;
        self.blocks.set(idx, cell);

        let solid = id != 0;
        let lx = y + z * CHUNK_SIZE;
        let ly = x + z * CHUNK_SIZE;
        let lz = x + y * CHUNK_SIZE;
        let wx = self.x_axis[lx];
        let wy = self.y_axis[ly];
        let wz = self.z_axis[lz];
        let nx = set_bit(wx, x as u32, solid);
        let ny = set_bit(wy, y as u32, solid);
        let nz = set_bit(wz, z as u32, solid);
        self.x_axis.set(lx, nx);
        self.y_axis.set(ly, ny);
        self.z_axis.set(lz, nz);

        proof {
            let after = *self;
            assert forall|a: int, b: int, c: int| in_chunk(a, b, c) implies
                #[trigger] after.block_at(a, b, c) == (if a == x && b == y && c == z {
                    block
                } else {
                    before.block_at(a, b, c)
                }) && after.health_at(a, b, c) == (if a == x && b == y && c == z {
                    health % 16
                } else {
                    before.health_at(a, b, c)
                }) by {
                lemma_cell_index_bounds(a, b, c);
                lemma_cell_index_inj(a, b, c, x as int, y as int, z as int);
            }
            assert forall|a: int, b: int, c: int| #![trigger after.health_at(a, b, c)]
                in_chunk(a, b, c) implies after.health_at(a, b, c) == (if a == x && b == y && c == z {
                    health % 16
                } else {
                    before.health_at(a, b, c)
                }) by {
                assert(after.block_at(a, b, c) == after.block_at(a, b, c));
            }
            assert forall|a: int, b: int, c: int| in_chunk(a, b, c) implies
                #[trigger] after.x_bit(a, b, c) == after.occupied(a, b, c) by {
                lemma_cell_index_inj(a, b, c, x as int, y as int, z as int);
                lemma_line_index_bounds(b, c);
                lemma_line_index_inj(b, c, y as int, z as int);
                assert(after.block_at(a, b, c) == after.block_at(a, b, c));
                if b == y && c == z {
                    lemma_set_bit(wx, x as u32, a as u32, solid);
                    assert(before.x_bit(a, b, c) == before.occupied(a, b, c));
                } else {
                    assert(before.x_bit(a, b, c) == before.occupied(a, b, c));
                }
            }
            assert forall|a: int, b: int, c: int| in_chunk(a, b, c) implies
                #[trigger] after.y_bit(a, b, c) == after.occupied(a, b, c) by {
                lemma_cell_index_inj(a, b, c, x as int, y as int, z as int);
                lemma_line_index_bounds(a, c);
                lemma_line_index_inj(a, c, x as int, z as int);
                assert(after.block_at(a, b, c) == after.block_at(a, b, c));
                if a == x && c == z {
                    lemma_set_bit(wy, y as u32, b as u32, solid);
                    assert(before.y_bit(a, b, c) == before.occupied(a, b, c));
                } else {
                    assert(before.y_bit(a, b, c) == before.occupied(a, b, c));
                }
            }
            assert forall|a: int, b: int, c: int| in_chunk(a, b, c) implies
                #[trigger] after.z_bit(a, b, c) == after.occupied(a, b, c) by {
                lemma_cell_index_inj(a, b, c, x as int, y as int, z as int);
                lemma_line_index_bounds(a, b);
                lemma_line_index_inj(a, b, x as int, y as int);
                assert(after.block_at(a, b, c) == after.block_at(a, b, c));
                if a == x && b == y {
                    lemma_set_bit(wz, z as u32, c as u32, solid);
                    assert(before.z_bit(a, b, c) == before.occupied(a, b, c));
                } else {
                    assert(before.z_bit(a, b, c) == before.occupied(a, b, c));
                }
            }
        }
        Ok(())
    }
}

/// `w` with bit `i` set when `on`, cleared otherwise.
fn set_bit(w: u32, i: u32, on: bool) -> (r: u32)
    requires
        i < CHUNK_SIZE,
        word_fits(w),
    ensures
        word_fits(r),
        forall|j: u32| j < CHUNK_SIZE ==> #[trigger] bit(r, j) == (if j == i { on } else { bit(w, j) }),
{
    let r = if on {
        w | (1u32 << i)
    } else {
        w & !(1u32 << i)
    };
    proof {
        assert forall|j: u32| j < CHUNK_SIZE implies #[trigger] bit(r, j) == (if j == i {
            on
        } else {
            bit(w, j)
        }) by {
            lemma_set_bit(w, i, j, on);
        }
        lemma_set_bit(w, i, 0, on);
    }
    r
}

proof fn lemma_set_bit(w: u32, i: u32, j: u32, on: bool)
    requires
        i < 15,
        j < 15,
        w < 0x8000u32,
    ensures
        bit(if on { w | (1u32 << i) } else { w & !(1u32 << i) }, j) == (if j == i { on } else { bit(w, j) }),
        word_fits(if on { w | (1u32 << i) } else { w & !(1u32 << i) }),
{
    if on {
        assert(((w | (1u32 << i)) >> j) & 1u32 == 1u32 <==> (j == i || (w >> j) & 1u32 == 1u32))
            by (bit_vector)
            requires
                i < 15,
                j < 15,
        ;
        assert(w | (1u32 << i) < 0x8000u32) by (bit_vector)
            requires
                i < 15,
                w < 0x8000u32,
        ;
    } else {
        assert(((w & !(1u32 << i)) >> j) & 1u32 == 1u32 <==> (j != i && (w >> j) & 1u32 == 1u32))
            by (bit_vector)
            requires
                i < 15,
                j < 15,
        ;
        assert(w & !(1u32 << i) < 0x8000u32) by (bit_vector)
            requires
                w < 0x8000u32,
        ;
    }
}

proof fn lemma_pack(id: u8, health: u8)
    requires
        id <= 7,
    ensures
        (id | ((health & 15u8) << 4u8)) & 15u8 == id,
        (id | ((health & 15u8) << 4u8)) >> 4u8 == health % 16,
{
    assert((id | ((health & 15u8) << 4u8)) & 15u8 == id) by (bit_vector)
        requires
            id <= 7,
    ;
    assert((id | ((health & 15u8) << 4u8)) >> 4u8 == health % 16) by (bit_vector)
        requires
            id <= 7,
    ;
}

pub proof fn lemma_cell_index_inj(a: int, b: int, c: int, x: int, y: int, z: int)
    requires
        in_chunk(a, b, c),
        in_chunk(x, y, z),
    ensures
        cell_index(a, b, c) == cell_index(x, y, z) <==> (a == x && b == y && c == z),
{
}

pub proof fn lemma_line_index_inj(a: int, b: int, c: int, d: int)
    requires
        0 <= a < CHUNK_SIZE,
        0 <= b < CHUNK_SIZE,
        0 <= c < CHUNK_SIZE,
        0 <= d < CHUNK_SIZE,
    ensures
        line_index(a, b) == line_index(c, d) <==> (a == c && b == d),
{
}

/// Writing a cell and reading it back gives the block written and, for a
/// health below 16, the health written.
pub proof fn lemma_get_after_set(
    before: Chunk,
    after: Chunk,
    x: usize,
    y: usize,
    z: usize,
    block: Block,
    health: u8,
)
    requires
        before.wf(),
        in_chunk(x as int, y as int, z as int),
        health < 16,
        before.with_block(after, x as int, y as int, z as int, block, health),
    ensures
        after.block_result(x, y, z) == Ok::<Block, ChunkError>(block),
        after.health_result(x, y, z) == Ok::<u8, ChunkError>(health),
{
    assert(after.block_at(x as int, y as int, z as int) == block);
    assert(after.health_at(x as int, y as int, z as int) == health % 16);
}

/// Any coordinate outside `[0, CHUNK_SIZE)` is refused with `IndexOutOfBounds`
/// by both readers (the writer's contract says the same of it).
pub proof fn lemma_out_of_bounds(c: Chunk, x: usize, y: usize, z: usize)
    requires
        !in_chunk(x as int, y as int, z as int),
    ensures
        c.block_result(x, y, z) == Err::<Block, ChunkError>(ChunkError::IndexOutOfBounds { x, y, z }),
        c.health_result(x, y, z) == Err::<u8, ChunkError>(ChunkError::IndexOutOfBounds { x, y, z }),
{
}

/// In every chunk that `new` and `set_block` produce, the three axis bits of
/// each cell equal "the cell is not `Air`".
pub proof fn lemma_axis_consistency(c: Chunk)
    requires
        c.wf(),
    ensures
        forall|x: int, y: int, z: int|
            #![trigger c.occupied(x, y, z)]
            in_chunk(x, y, z) ==> c.x_bit(x, y, z) == c.occupied(x, y, z) && c.y_bit(x, y, z)
                == c.occupied(x, y, z) && c.z_bit(x, y, z) == c.occupied(x, y, z),
{
    assert forall|x: int, y: int, z: int| #![trigger c.occupied(x, y, z)] in_chunk(x, y, z) implies
        c.x_bit(x, y, z) == c.occupied(x, y, z) && c.y_bit(x, y, z) == c.occupied(x, y, z)
            && c.z_bit(x, y, z) == c.occupied(x, y, z) by {
        assert(c.x_bit(x, y, z) == c.occupied(x, y, z));
        assert(c.y_bit(x, y, z) == c.occupied(x, y, z));
        assert(c.z_bit(x, y, z) == c.occupied(x, y, z));
    }
}

} // verus!
