use voxel_mesh::block::Block;
use voxel_mesh::chunk::{Chunk, ChunkError, ChunkPos};
use voxel_mesh::edit::ChunkModification;
use voxel_mesh::tree::{generate_fir, generate_oak, generate_tree, random_tree_offset, tree_in_layer};

#[test]
fn oak_leaves_then_trunk() {
    let cells = generate_oak(100, 10, -3);
    let mut ball = 0;
    for a in -4i32..=4 {
        for b in -4i32..=4 {
            for c in -4i32..=4 {
                if a * a + b * b + c * c <= 16 {
                    ball += 1;
                    assert!(cells.contains(&(100 + a, 17 + b, -3 + c, Block::Leaves)));
                }
            }
        }
    }
    assert_eq!(cells.len(), ball + 5);
    assert_eq!(cells[0], (96, 17, -3, Block::Leaves));
    for t in 0..5 {
        assert_eq!(cells[ball + t], (100, 10 + t as i32, -3, Block::Wood));
    }
    assert!(cells[..ball].iter().all(|c| c.3 == Block::Leaves));
    assert_eq!(generate_tree(100, 10, -3), cells);
    assert_eq!(generate_fir(100, 10, -3), cells);
}

#[test]
fn tree_layers() {
    assert!(tree_in_layer(0, 0));
    assert!(tree_in_layer(14, 0));
    assert!(!tree_in_layer(15, 0));
    assert!(tree_in_layer(15, 1));
    assert!(tree_in_layer(-1, -1));
    assert!(!tree_in_layer(-16, -1));
}

#[test]
fn tree_offsets_stay_inside() {
    for _ in 0..200 {
        assert!(random_tree_offset() < 14);
    }
}

#[test]
fn modifications_apply_in_order() {
    let mut c = Chunk::new(ChunkPos::new(0, 0, 0));
    let mut m = ChunkModification::new();
    assert!(m.blocks.is_empty());
    m.blocks.push((1, 2, 3, Block::Leaves, 15));
    m.blocks.push((1, 2, 3, Block::Wood, 12));
    m.blocks.push((20, 0, 0, Block::Stone, 1));
    m.blocks.push((0, 0, 0, Block::Dirt, 4));
    let errors = m.apply(&mut c);
    assert_eq!(errors, vec![ChunkError::IndexOutOfBounds { x: 20, y: 0, z: 0 }]);
    assert_eq!(c.get_block(1, 2, 3), Ok(Block::Wood));
    assert_eq!(c.get_health(1, 2, 3), Ok(12));
    assert_eq!(c.get_block(0, 0, 0), Ok(Block::Dirt));
    assert_eq!(c.get_block(0, 0, 1), Ok(Block::Air));
}
