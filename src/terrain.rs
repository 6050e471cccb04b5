use vstd::prelude::*;

use crate::block::Block;
use crate::chunk::{in_chunk, Chunk, CHUNK_SIZE};

verus! {

/// `rand::random`: a value drawn from the thread-local generator; nothing
/// is known of it.
pub assume_specification<T>[ rand::random::<T> ]() -> (r: T)
    where
        rand::distributions::Standard: rand::distributions::Distribution<T>,
;

/// Block of the terrain at height `y` in a column whose surface is at
/// `height`, where grass turns light from `grass_level` up: nothing above
/// the surface, three layers of grass, dirt down to fifteen below the
/// surface, stone beneath.
pub open spec fn terrain_block_at(y: int, height: int, grass_level: int) -> Option<Block> {
    if y > height {
        None
    } else if y >= height - 3 {
        if y >= grass_level {
            Some(Block::LightGrass)
        } else {
            Some(Block::Grass)
        }
    } else if y > height - 15 {
        Some(Block::Dirt)
    } else {
        Some(Block::Stone)
    }
}

pub fn terrain_block(y: i64, height: i64, grass_level: i64) -> (r: Option<Block>)
    requires
        i64::MIN + 15 <= height,
    ensures
        r == terrain_block_at(y as int, height as int, grass_level as int),
{
    if y > height {
        None
    } else if y >= height - 3 {
        if y >= grass_level {
            Some(Block::LightGrass)
        } else {
            Some(Block::Grass)
        }
    } else if y > height - 15 {
        Some(Block::Dirt)
    } else {
        Some(Block::Stone)
    }
}

/// Health of a freshly generated terrain block: 12 to 15, at random.
pub fn terrain_health() -> (r: u8)
    ensures
        12 <= r <= 15,
{
    let roll: u8 = rand::random::<u8>();
    roll % 4 + 12
}

/// Fills column `(x, z)` of `chunk`, whose lowest cell is at world height
/// `base_y`, with the terrain of a surface at `height` (see
/// `terrain_block_at`), each block with a health from 12 to 15. Cells above
/// the surface and other columns are left as they were.
pub fn generate_column(chunk: &mut Chunk, x: usize, z: usize, base_y: i32, height: i32, grass_level: i32)
    requires
        old(chunk).wf(),
        x < CHUNK_SIZE,
        z < CHUNK_SIZE,
    ensures
        final(chunk).wf(),
        final(chunk).pos == old(chunk).pos,
        forall|a: int, b: int, c: int|
            #![trigger final(chunk).block_at(a, b, c)]
            in_chunk(a, b, c) ==> match (if a == x && c == z {
                terrain_block_at(base_y + b, height as int, grass_level as int)
            } else {
                None
            }) {
                Some(blk) => final(chunk).block_at(a, b, c) == blk && 12 <= final(chunk).health_at(a, b, c) <= 15,
                None => final(chunk).block_at(a, b, c) == old(chunk).block_at(a, b, c) && final(chunk).health_at(a, b, c)
                    == old(chunk).health_at(a, b, c),
            },
{
    let ghost start = *chunk;
    let mut y: usize = 0;
    while y < CHUNK_SIZE
        invariant
            y <= CHUNK_SIZE,
            x < CHUNK_SIZE,
            z < CHUNK_SIZE,
            chunk.wf(),
            chunk.pos == start.pos,
            forall|a: int, b: int, c: int|
                #![trigger chunk.block_at(a, b, c)]
                in_chunk(a, b, c) ==> match (if a == x && c == z && b < y {
                    terrain_block_at(base_y + b, height as int, grass_level as int)
                } else {
                    None
                }) {
                    Some(blk) => chunk.block_at(a, b, c) == blk && 12 <= chunk.health_at(a, b, c) <= 15,
                    None => chunk.block_at(a, b, c) == start.block_at(a, b, c) && chunk.health_at(a, b, c)
                        == start.health_at(a, b, c),
                },
        decreases CHUNK_SIZE - y,
    {
        let world_y = base_y as i64 + y as i64;
        if let Some(block) = terrain_block(world_y, height as i64, grass_level as i64) {
            let health = terrain_health();
            let ghost before = *chunk;
            let r = chunk.set_block(x, y, z, block, health);
            proof {
                assert forall|a: int, b: int, c: int|
                    #![trigger chunk.block_at(a, b, c)]
                    in_chunk(a, b, c) implies match (if a == x && c == z && b < y + 1 {
                        terrain_block_at(base_y + b, height as int, grass_level as int)
                    } else {
                        None
                    }) {
                        Some(blk) => chunk.block_at(a, b, c) == blk && 12 <= chunk.health_at(a, b, c) <= 15,
                        None => chunk.block_at(a, b, c) == start.block_at(a, b, c) && chunk.health_at(a, b, c)
                            == start.health_at(a, b, c),
                    } by {
                    assert(chunk.health_at(a, b, c) == chunk.health_at(a, b, c));
                    assert(before.block_at(a, b, c) == before.block_at(a, b, c));
                }
            }
        }
        y += 1;
    }
}

} // verus!
