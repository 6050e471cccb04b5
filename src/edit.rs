use vstd::prelude::*;

use crate::block::Block;
use crate::chunk::{in_chunk, Chunk, ChunkError};

verus! {

/// A pending write of one cell: offset in the chunk, block and health.
pub type CellEdit = (usize, usize, usize, Block, u8);

/// Block and health of cell `(x, y, z)` after the first `n` edits, applied in
/// order (a later edit of the same cell wins; an edit outside the chunk
/// changes nothing), starting from `start`.
pub open spec fn cell_after(edits: Seq<CellEdit>, n: int, x: int, y: int, z: int, start: (Block, u8)) -> (Block, u8)
    decreases n,
{
    if n <= 0 {
        start
    } else {
        let e = edits[n - 1];
        if e.0 == x && e.1 == y && e.2 == z && in_chunk(x, y, z) {
            (e.3, e.4 % 16)
        } else {
            cell_after(edits, n - 1, x, y, z, start)
        }
    }
}

/// Edits queued for one chunk.
pub struct ChunkModification {
    pub blocks: Vec<CellEdit>,
}

impl ChunkModification {
    pub fn new() -> (r: Self)
        ensures
            r.blocks@.len() == 0,
    {
        ChunkModification { blocks: Vec::new() }
    }

    /// Applies the edits to `chunk` in order. An edit outside the chunk is
    /// skipped; the offending edits are returned as errors, in order.
    pub fn apply(&self, chunk: &mut Chunk) -> (errors: Vec<ChunkError>)
        requires
            old(chunk).wf(),
        ensures
            final(chunk).wf(),
            final(chunk).pos == old(chunk).pos,
            forall|x: int, y: int, z: int|
                #![trigger final(chunk).block_at(x, y, z)]
                in_chunk(x, y, z) ==> (final(chunk).block_at(x, y, z), final(chunk).health_at(x, y, z)) == cell_after(
                    self.blocks@,
                    self.blocks@.len() as int,
                    x,
                    y,
                    z,
                    (old(chunk).block_at(x, y, z), old(chunk).health_at(x, y, z)),
                ),
            errors@.len() <= self.blocks@.len(),
    {
        let ghost start = *chunk;
        let mut errors: Vec<ChunkError> = Vec::new();
        let mut i: usize = 0;
        while i < self.blocks.len()
            invariant
                i <= self.blocks@.len(),
                chunk.wf(),
                chunk.pos == start.pos,
                errors@.len() <= i,
                forall|x: int, y: int, z: int|
                    #![trigger chunk.block_at(x, y, z)]
                    in_chunk(x, y, z) ==> (chunk.block_at(x, y, z), chunk.health_at(x, y, z)) == cell_after(
                        self.blocks@,
                        i as int,
                        x,
                        y,
                        z,
                        (start.block_at(x, y, z), start.health_at(x, y, z)),
                    ),
            decreases self.blocks@.len() - i,
        {
            let (x, y, z, block, health) = self.blocks[i];
            let ghost before = *chunk;
            match chunk.set_block(x, y, z, block, health) {
                Ok(()) => {},
                Err(e) => {
                    errors.push(e);
                },
            }
            proof {
                assert forall|a: int, b: int, c: int|
                    #![trigger chunk.block_at(a, b, c)]
                    in_chunk(a, b, c) implies (chunk.block_at(a, b, c), chunk.health_at(a, b, c)) == cell_after(
                        self.blocks@,
                        i + 1,
                        a,
                        b,
                        c,
                        (start.block_at(a, b, c), start.health_at(a, b, c)),
                    ) by {
                    assert(before.block_at(a, b, c) == before.block_at(a, b, c));
                    assert(chunk.health_at(a, b, c) == chunk.health_at(a, b, c));
                }
            }
            i += 1;
        }
        errors
    }
}

} // verus!
