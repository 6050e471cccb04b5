use voxel_mesh::block::Block;
use voxel_mesh::chunk::{Chunk, ChunkError, ChunkPos, CHUNK_SIZE};

fn bit(w: u32, i: usize) -> bool {
    (w >> i) & 1 == 1
}

#[test]
fn new_chunk_is_air_with_full_health() {
    let c = Chunk::new(ChunkPos::new(1, -2, 3));
    assert_eq!(c.pos, ChunkPos { x: 1, y: -2, z: 3 });
    assert_eq!(c.get_block(0, 0, 0), Ok(Block::Air));
    assert_eq!(c.get_health(14, 14, 14), Ok(15));
    assert_eq!(c.blocks().len(), CHUNK_SIZE * CHUNK_SIZE * CHUNK_SIZE);
    assert!(c.blocks().iter().all(|&b| b == 0xF0));
}

#[test]
fn set_then_get_round_trip() {
    let mut c = Chunk::new(ChunkPos::new(0, 0, 0));
    assert_eq!(c.set_block(3, 4, 5, Block::Stone, 7), Ok(()));
    assert_eq!(c.get_block(3, 4, 5), Ok(Block::Stone));
    assert_eq!(c.get_health(3, 4, 5), Ok(7));
    assert_eq!(c.get_block(4, 4, 5), Ok(Block::Air));
    assert_eq!(c.get_health(4, 4, 5), Ok(15));
    for h in 0..16u8 {
        c.set_block(14, 0, 14, Block::LightLeaves, h).unwrap();
        assert_eq!(c.get_block(14, 0, 14), Ok(Block::LightLeaves));
        assert_eq!(c.get_health(14, 0, 14), Ok(h));
    }
}

#[test]
fn health_keeps_low_four_bits() {
    let mut c = Chunk::new(ChunkPos::new(0, 0, 0));
    c.set_block(1, 1, 1, Block::Wood, 0x1B).unwrap();
    assert_eq!(c.get_health(1, 1, 1), Ok(0x0B));
    assert_eq!(c.get_block(1, 1, 1), Ok(Block::Wood));
}

#[test]
fn out_of_bounds_is_refused() {
    let mut c = Chunk::new(ChunkPos::new(0, 0, 0));
    let n = CHUNK_SIZE;
    assert_eq!(c.get_block(n, 0, 0), Err(ChunkError::IndexOutOfBounds { x: n, y: 0, z: 0 }));
    assert_eq!(c.get_health(0, n, 0), Err(ChunkError::IndexOutOfBounds { x: 0, y: n, z: 0 }));
    assert_eq!(
        c.set_block(0, 0, 100, Block::Dirt, 3),
        Err(ChunkError::IndexOutOfBounds { x: 0, y: 0, z: 100 })
    );
    assert!(c.blocks().iter().all(|&b| b == 0xF0));
}

#[test]
fn axis_bits_follow_occupancy() {
    let mut c = Chunk::new(ChunkPos::new(0, 0, 0));
    c.set_block(2, 3, 4, Block::Grass, 9).unwrap();
    assert!(bit(c.x_axis[3 + 4 * CHUNK_SIZE], 2));
    assert!(bit(c.y_axis[2 + 4 * CHUNK_SIZE], 3));
    assert!(bit(c.z_axis[2 + 3 * CHUNK_SIZE], 4));
    c.set_block(2, 3, 4, Block::Air, 9).unwrap();
    assert_eq!(c.x_axis[3 + 4 * CHUNK_SIZE], 0);
    assert_eq!(c.y_axis[2 + 4 * CHUNK_SIZE], 0);
    assert_eq!(c.z_axis[2 + 3 * CHUNK_SIZE], 0);
}

#[test]
fn axis_bits_after_many_writes() {
    let mut c = Chunk::new(ChunkPos::new(0, 0, 0));
    let kinds = [Block::Air, Block::Grass, Block::Dirt, Block::Stone, Block::Air, Block::Leaves];
    let mut n = 0usize;
    for x in 0..CHUNK_SIZE {
        for y in 0..CHUNK_SIZE {
            for z in 0..CHUNK_SIZE {
                if (x * 7 + y * 3 + z) % 5 == 0 {
                    c.set_block(x, y, z, kinds[n % kinds.len()], (n % 16) as u8).unwrap();
                    n += 1;
                }
            }
        }
    }
    for x in 0..CHUNK_SIZE {
        for y in 0..CHUNK_SIZE {
            for z in 0..CHUNK_SIZE {
                let solid = c.get_block(x, y, z).unwrap() != Block::Air;
                assert_eq!(bit(c.x_axis[y + z * CHUNK_SIZE], x), solid);
                assert_eq!(bit(c.y_axis[x + z * CHUNK_SIZE], y), solid);
                assert_eq!(bit(c.z_axis[x + y * CHUNK_SIZE], z), solid);
            }
        }
    }
}

#[test]
fn block_ids_round_trip() {
    let all = [
        Block::Air,
        Block::Grass,
        Block::Dirt,
        Block::Stone,
        Block::LightGrass,
        Block::Wood,
        Block::Leaves,
        Block::LightLeaves,
    ];
    for (i, b) in all.iter().enumerate() {
        assert_eq!(b.as_u8(), i as u8);
        assert_eq!(Block::from(i as u8), *b);
    }
    assert_eq!(Block::from(8), Block::Air);
    assert_eq!(Block::from(255), Block::Air);
}

#[test]
fn density_volume_is_x_fastest() {
    let mut c = Chunk::new(ChunkPos::new(0, 0, 0));
    c.set_block(1, 2, 3, Block::Dirt, 4).unwrap();
    let v = c.blocks();
    assert_eq!(v[1 + 2 * CHUNK_SIZE + 3 * CHUNK_SIZE * CHUNK_SIZE], (4 << 4) | 2);
}
