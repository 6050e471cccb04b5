use voxel_mesh::block::Block;
use voxel_mesh::chunk::{Chunk, ChunkPos, CHUNK_SIZE};
use voxel_mesh::terrain::{generate_column, terrain_block, terrain_health};
use voxel_mesh::world::{split_coord, BlockEdit, ChunkNeighbors, VoxelWorld};

#[test]
fn neighbours_of_a_chunk() {
    let mut w = VoxelWorld::new();
    w.insert_chunk(ChunkPos::new(0, 0, 0), 10);
    w.insert_chunk(ChunkPos::new(1, 0, 0), 11);
    w.insert_chunk(ChunkPos::new(0, -1, 0), 12);
    w.insert_chunk(ChunkPos::new(0, 0, 1), 13);
    let n = w.neighbours(ChunkPos::new(0, 0, 0));
    assert_eq!(
        n,
        ChunkNeighbors { left: None, right: Some(11), bottom: Some(12), top: None, back: None, front: Some(13) }
    );
    assert_eq!(w.update_neighbors(ChunkPos::new(0, 0, 0)), vec![11, 13, 12]);
    assert_eq!(w.neighbours(ChunkPos::new(1, 0, 0)).left, Some(10));
}

#[test]
fn neighbours_at_the_coordinate_limits() {
    let mut w = VoxelWorld::new();
    w.insert_chunk(ChunkPos::new(i32::MAX, 0, 0), 1);
    let n = w.neighbours(ChunkPos::new(i32::MIN, 0, 0));
    assert_eq!(n.left, None);
    let m = w.neighbours(ChunkPos::new(i32::MAX, 0, 0));
    assert_eq!(m.right, None);
}

#[test]
fn pending_is_lifo_and_skips_loaded() {
    let mut w = VoxelWorld::new().with_generation(vec![ChunkPos::new(0, 0, 0), ChunkPos::new(1, 0, 0)]);
    w.generate(vec![ChunkPos::new(2, 0, 0)]);
    assert!(!w.is_loaded(ChunkPos::new(1, 0, 0)));
    w.insert_chunk(ChunkPos::new(1, 0, 0), 7);
    assert!(w.is_loaded(ChunkPos::new(1, 0, 0)));
    assert_eq!(w.drain_pending(), Some(ChunkPos::new(2, 0, 0)));
    assert_eq!(w.drain_pending(), Some(ChunkPos::new(0, 0, 0)));
    assert_eq!(w.next_chunks.len(), 0);
    assert_eq!(w.drain_pending(), None);
}

#[test]
fn split_coordinates() {
    assert_eq!(split_coord(0), (0, 0));
    assert_eq!(split_coord(14), (0, 14));
    assert_eq!(split_coord(15), (1, 0));
    assert_eq!(split_coord(-1), (-1, 14));
    assert_eq!(split_coord(-15), (-1, 0));
    assert_eq!(split_coord(-16), (-2, 14));
    assert_eq!(split_coord(i32::MIN), (i32::MIN / 15 - 1, (i32::MIN as i64 - (i32::MIN / 15 - 1) as i64 * 15) as usize));
}

#[test]
fn world_set_block_addresses_the_chunk() {
    let mut w = VoxelWorld::new();
    w.insert_chunk(ChunkPos::new(-1, 0, 2), 42);
    assert_eq!(
        w.set_block(-1, 3, 31, Block::Leaves, 15),
        Some(BlockEdit { chunk: 42, x: 14, y: 3, z: 1, block: Block::Leaves, health: 15 })
    );
    assert_eq!(w.set_block(1, 3, 31, Block::Leaves, 15), None);
}

#[test]
fn terrain_layers() {
    assert_eq!(terrain_block(51, 50, 0), None);
    assert_eq!(terrain_block(50, 50, 0), Some(Block::LightGrass));
    assert_eq!(terrain_block(47, 50, 60), Some(Block::Grass));
    assert_eq!(terrain_block(46, 50, 0), Some(Block::Dirt));
    assert_eq!(terrain_block(36, 50, 0), Some(Block::Dirt));
    assert_eq!(terrain_block(35, 50, 0), Some(Block::Stone));
}

#[test]
fn terrain_health_range() {
    for _ in 0..200 {
        let h = terrain_health();
        assert!((12..=15).contains(&h));
    }
}

#[test]
fn column_is_filled_up_to_the_surface() {
    let mut c = Chunk::new(ChunkPos::new(0, 1, 0));
    generate_column(&mut c, 2, 3, 15, 20, 19);
    for y in 0..CHUNK_SIZE {
        let b = c.get_block(2, y, 3).unwrap();
        let world_y = 15 + y as i64;
        assert_eq!(Some(b).filter(|b| *b != Block::Air), terrain_block(world_y, 20, 19));
        if b != Block::Air {
            assert!((12..=15).contains(&c.get_health(2, y, 3).unwrap()));
        }
    }
    assert_eq!(c.get_block(2, 5, 3), Ok(Block::LightGrass));
    assert_eq!(c.get_block(2, 0, 3), Ok(Block::Dirt));
    assert_eq!(c.get_block(2, 6, 3), Ok(Block::Air));
    assert_eq!(c.get_block(3, 0, 3), Ok(Block::Air));
}
