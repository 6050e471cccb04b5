use voxel_mesh::block::Block;
use voxel_mesh::chunk::{Chunk, ChunkPos, CHUNK_SIZE};
use voxel_mesh::quad::Direction;
use voxel_mesh::visibility::{line_axis, line_masks, ChunkMask, Sides};
use voxel_mesh::visibility as vis;

fn no_sides<'a>() -> Sides<'a> {
    Sides { left: None, right: None, bottom: None, top: None, back: None, front: None }
}

fn solid() -> Chunk {
    let mut c = Chunk::new(ChunkPos::new(0, 0, 0));
    for x in 0..CHUNK_SIZE {
        for y in 0..CHUNK_SIZE {
            for z in 0..CHUNK_SIZE {
                c.set_block(x, y, z, Block::Stone, 15).unwrap();
            }
        }
    }
    c
}

#[test]
fn line_finds_run_ends() {
    assert_eq!(vis::line(0b0110, false, false), (0b0010, 0b0100));
    assert_eq!(vis::line(0b1011, false, false), (0b1001, 0b1010));
    assert_eq!(vis::line(0, true, true), (0, 0));
}

#[test]
fn line_uses_neighbour_bits_at_the_ends() {
    let full = (1u32 << CHUNK_SIZE) - 1;
    assert_eq!(vis::line(full, false, false), (1, 1 << (CHUNK_SIZE - 1)));
    assert_eq!(vis::line(full, true, false), (0, 1 << (CHUNK_SIZE - 1)));
    assert_eq!(vis::line(full, false, true), (1, 0));
    assert_eq!(vis::line(full, true, true), (0, 0));
}

#[test]
fn line_axis_matches_line() {
    for w in [0u16, 1, 0b101, 0x4000, 0x7FFF, 0x1234] {
        for before in [false, true] {
            for after in [false, true] {
                let (asc, desc) = line_axis(w, before, after);
                let (d2, a2) = vis::line(w as u32, before, after);
                assert_eq!((desc as u32, asc as u32), (d2, a2));
            }
        }
    }
}

#[test]
fn mask_of_single_voxel_shows_six_faces() {
    let mut c = Chunk::new(ChunkPos::new(0, 0, 0));
    c.set_block(0, 0, 0, Block::Dirt, 15).unwrap();
    let m = ChunkMask::from_chunk(&c, &no_sides());
    assert_eq!(m.left[0], 1);
    assert_eq!(m.right[0], 1);
    assert_eq!(m.bottom[0], 1);
    assert_eq!(m.top[0], 1);
    assert_eq!(m.back[0], 1);
    assert_eq!(m.front[0], 1);
    let total: u32 = [&m.left, &m.right, &m.bottom, &m.top, &m.back, &m.front]
        .iter()
        .map(|v| v.iter().map(|w| w.count_ones()).sum::<u32>())
        .sum();
    assert_eq!(total, 6);
}

#[test]
fn empty_mask_has_no_faces() {
    let m = ChunkMask::new();
    assert!(m.left.iter().chain(m.front.iter()).all(|&w| w == 0));
    assert_eq!(m.top.len(), CHUNK_SIZE * CHUNK_SIZE);
}

#[test]
fn solid_neighbours_hide_shared_faces() {
    let a = solid();
    let b = solid();
    let sides_a = Sides { right: Some(&b), ..no_sides() };
    let sides_b = Sides { left: Some(&a), ..no_sides() };
    let ma = ChunkMask::from_chunk(&a, &sides_a);
    let mb = ChunkMask::from_chunk(&b, &sides_b);
    assert!(ma.right.iter().all(|&w| w == 0));
    assert!(mb.left.iter().all(|&w| w == 0));
    assert!(ma.left.iter().all(|&w| w == 1));
    assert!(mb.right.iter().all(|&w| w == 1 << (CHUNK_SIZE - 1)));
}

#[test]
fn missing_neighbour_shows_boundary() {
    let a = solid();
    let m = ChunkMask::from_chunk(&a, &no_sides());
    assert!(m.bottom.iter().all(|&w| w == 1));
    assert!(m.top.iter().all(|&w| w == 1 << (CHUNK_SIZE - 1)));
    assert!(m.back.iter().all(|&w| w == 1));
    assert!(m.front.iter().all(|&w| w == 1 << (CHUNK_SIZE - 1)));
}

#[test]
fn partial_neighbour_hides_only_its_cells() {
    let a = solid();
    let mut b = Chunk::new(ChunkPos::new(1, 0, 0));
    b.set_block(0, 2, 3, Block::Stone, 15).unwrap();
    let sides = Sides { right: Some(&b), ..no_sides() };
    let (_, r, _, _, _, _) = line_masks(&a, &sides, 2, 3);
    assert_eq!(r, 0);
    let (_, r2, _, _, _, _) = line_masks(&a, &sides, 3, 3);
    assert_eq!(r2, 1 << (CHUNK_SIZE - 1));
    let _ = Direction::Right;
}
