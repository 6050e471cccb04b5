use voxel_mesh::block::Block;
use voxel_mesh::chunk::{Chunk, ChunkPos, CHUNK_SIZE};
use voxel_mesh::culler::{push_face_axis, CulledMesh};
use voxel_mesh::greedy::{greedy_plane, planes_of, push_face_in_plane, GreedyMesh, Rect};
use voxel_mesh::mesh::{push_face, Face};
use voxel_mesh::quad::{Direction, Quad};

const N: usize = CHUNK_SIZE;

fn solid(pos: ChunkPos) -> Chunk {
    let mut c = Chunk::new(pos);
    for x in 0..N {
        for y in 0..N {
            for z in 0..N {
                c.set_block(x, y, z, Block::Stone, 15).unwrap();
            }
        }
    }
    c
}

fn normal_of(v: u32) -> u32 {
    (v >> 23) & 7
}

fn check_indices(vertices: &[u32], indices: &[u32]) {
    assert_eq!(vertices.len() % 4, 0);
    assert_eq!(indices.len(), vertices.len() / 4 * 6);
    for (q, tri) in indices.chunks(6).enumerate() {
        let o = 4 * q as u32;
        assert_eq!(tri, &[o, o + 1, o + 2, o, o + 2, o + 3]);
    }
}

fn area(r: &Rect) -> u32 {
    r.width * r.height
}

#[test]
fn full_stone_chunk_greedy_gives_six_quads() {
    let c = solid(ChunkPos::new(0, 0, 0));
    let m = GreedyMesh::new(&c, None, None, None, None, None, None);
    assert_eq!(m.vertices.len(), 6 * 4);
    assert_eq!(m.indices.len(), 6 * 6);
    check_indices(&m.vertices, &m.indices);
    let mut normals: Vec<u32> = m.vertices.iter().map(|&v| normal_of(v)).collect();
    normals.sort();
    normals.dedup();
    assert_eq!(normals, vec![0, 1, 2, 3, 4, 5]);
}

#[test]
fn full_stone_chunk_naive_gives_1350_quads() {
    let c = solid(ChunkPos::new(0, 0, 0));
    let m = CulledMesh::new(&c, None, None, None, None, None, None);
    assert_eq!(m.vertices.len() / 4, 6 * 15 * 15);
    assert_eq!(m.vertices.len() / 4, 1350);
    check_indices(&m.vertices, &m.indices);
}

#[test]
fn adjacent_solid_chunks_share_no_faces() {
    let a = solid(ChunkPos::new(0, 0, 0));
    let b = solid(ChunkPos::new(1, 0, 0));
    let ga = GreedyMesh::new(&a, None, Some(&b), None, None, None, None);
    let gb = GreedyMesh::new(&b, Some(&a), None, None, None, None, None);
    assert_eq!(ga.vertices.len() / 4, 5);
    assert_eq!(gb.vertices.len() / 4, 5);
    assert!(ga.vertices.iter().all(|&v| normal_of(v) != 1));
    assert!(gb.vertices.iter().all(|&v| normal_of(v) != 0));
    let na = CulledMesh::new(&a, None, Some(&b), None, None, None, None);
    let nb = CulledMesh::new(&b, Some(&a), None, None, None, None, None);
    assert_eq!(na.vertices.len() / 4, 1350 - 225);
    assert_eq!(nb.vertices.len() / 4, 1350 - 225);
    assert!(na.vertices.iter().all(|&v| normal_of(v) != 1));
    assert!(nb.vertices.iter().all(|&v| normal_of(v) != 0));
}

#[test]
fn single_voxel_gives_six_quads_from_either_mesher() {
    let mut c = Chunk::new(ChunkPos::new(0, 0, 0));
    c.set_block(0, 0, 0, Block::Grass, 9).unwrap();
    let g = GreedyMesh::new(&c, None, None, None, None, None, None);
    let n = CulledMesh::new(&c, None, None, None, None, None, None);
    assert_eq!(g.vertices.len() / 4, 6);
    assert_eq!(n.vertices.len() / 4, 6);
    for v in g.vertices.iter().chain(n.vertices.iter()) {
        assert_eq!((v >> 15) & 15, 1);
        assert_eq!((v >> 19) & 15, 9);
        assert!(v & 31 <= 1 && (v >> 5) & 31 <= 1 && (v >> 10) & 31 <= 1);
    }
}

#[test]
fn empty_chunk_has_empty_mesh() {
    let c = Chunk::new(ChunkPos::new(0, 0, 0));
    assert!(GreedyMesh::new(&c, None, None, None, None, None, None).vertices.is_empty());
    assert!(CulledMesh::new(&c, None, None, None, None, None, None).indices.is_empty());
}

#[test]
fn greedy_and_naive_cover_the_same_area() {
    let mut c = Chunk::new(ChunkPos::new(0, 0, 0));
    for x in 0..N {
        for y in 0..N {
            for z in 0..N {
                if (x * x + y + 2 * z) % 3 == 0 || y < 4 {
                    c.set_block(x, y, z, Block::Dirt, 10).unwrap();
                }
            }
        }
    }
    let g = GreedyMesh::new(&c, None, None, None, None, None, None);
    let n = CulledMesh::new(&c, None, None, None, None, None, None);
    // each quad's area from its first and third corners
    let quad_area = |q: &[u32]| -> u32 {
        let d = |a: u32, b: u32| if a > b { a - b } else { b - a };
        let (p, r) = (q[0], q[2]);
        let dx = d(p & 31, r & 31).max(1);
        let dy = d((p >> 5) & 31, (r >> 5) & 31).max(1);
        let dz = d((p >> 10) & 31, (r >> 10) & 31).max(1);
        dx * dy * dz
    };
    let ga: u32 = g.vertices.chunks(4).map(quad_area).sum();
    let na: u32 = n.vertices.chunks(4).map(quad_area).sum();
    assert_eq!(na, (n.vertices.len() / 4) as u32);
    assert_eq!(ga, na);
    assert!(g.vertices.len() < n.vertices.len());
}

#[test]
fn quad_from_direction_left() {
    let q = Quad::from_direction(Direction::Left, 8, (2, 3, 4), (1, 2, 5), 3, 12);
    let w = |x: u32, y: u32, z: u32| (12 << 19) | (3 << 15) | (z << 10) | (y << 5) | x;
    assert_eq!(q.vertices, vec![w(2, 3, 4), w(2, 3, 9), w(2, 5, 9), w(2, 5, 4)]);
    assert_eq!(q.indices, vec![8, 9, 10, 8, 10, 11]);
}

#[test]
fn quad_from_direction_front_clamps() {
    let q = Quad::from_direction(Direction::Front, 0, (20, 0, 14), (1, 1, 1), 99, 99);
    let w = |x: u32, y: u32, z: u32| (5 << 23) | (15 << 19) | (15 << 15) | (z << 10) | (y << 5) | x;
    assert_eq!(q.vertices, vec![w(14, 1, 15), w(14, 0, 15), w(15, 0, 15), w(15, 1, 15)]);
}

#[test]
fn direction_tags() {
    let all = [Direction::Left, Direction::Right, Direction::Down, Direction::Up, Direction::Back, Direction::Front];
    for (i, d) in all.iter().enumerate() {
        assert_eq!(d.get_normal(), i as u32);
        assert_eq!(d.get_opposite().get_opposite(), *d);
        assert_ne!(d.get_opposite(), *d);
    }
    assert_eq!(Direction::Up.get_opposite(), Direction::Down);
}

#[test]
fn greedy_plane_full_plane_is_one_rect() {
    let rects = greedy_plane(vec![(1u32 << N) - 1; N]);
    assert_eq!(rects, vec![Rect { row: 0, col: 0, width: 15, height: 15 }]);
}

#[test]
fn greedy_plane_merges_equal_runs() {
    let mut plane = vec![0u32; N];
    plane[2] = 0b0111_0000;
    plane[3] = 0b0111_0000;
    plane[4] = 0b1111_0000;
    plane[5] = 0b0000_0011;
    let rects = greedy_plane(plane.clone());
    assert_eq!(
        rects,
        vec![
            Rect { row: 2, col: 4, width: 3, height: 3 },
            Rect { row: 4, col: 7, width: 1, height: 1 },
            Rect { row: 5, col: 0, width: 1, height: 2 },
        ]
    );
    let popcount: u32 = plane.iter().map(|w| w.count_ones()).sum();
    assert_eq!(rects.iter().map(area).sum::<u32>(), popcount);
}

#[test]
fn greedy_plane_area_and_no_overlap() {
    let mut plane = vec![0u32; N];
    for (i, w) in plane.iter_mut().enumerate() {
        *w = ((i as u32 * 0x2F1B) ^ 0x5A5A) & 0x7FFF;
    }
    let rects = greedy_plane(plane.clone());
    let popcount: u32 = plane.iter().map(|w| w.count_ones()).sum();
    assert_eq!(rects.iter().map(area).sum::<u32>(), popcount);
    let mut seen = vec![0u32; N];
    for r in &rects {
        for a in r.row..r.row + r.width {
            for b in r.col..r.col + r.height {
                assert_eq!(seen[a as usize] & (1 << b), 0);
                seen[a as usize] |= 1 << b;
            }
        }
    }
    assert_eq!(seen, plane);
}

#[test]
fn greedy_plane_empty() {
    assert!(greedy_plane(vec![0u32; N]).is_empty());
}

#[test]
fn push_face_in_plane_sets_one_bit_per_face() {
    let mut planes = vec![0u32; N * N];
    push_face_in_plane(0b1001, 2, 7, &mut planes);
    assert_eq!(planes[0 * N + 2], 1 << 7);
    assert_eq!(planes[3 * N + 2], 1 << 7);
    assert_eq!(planes.iter().filter(|&&w| w != 0).count(), 2);
}

#[test]
fn planes_transpose_lines() {
    let mut words = vec![0u32; N * N];
    words[4 + 6 * N] = 1 << 9;
    let planes = planes_of(&words);
    assert_eq!(planes[9 * N + 4], 1 << 6);
    assert_eq!(planes.iter().filter(|&&w| w != 0).count(), 1);
}

#[test]
fn push_face_axis_checks_the_bit_and_bounds() {
    let mut c = Chunk::new(ChunkPos::new(0, 0, 0));
    c.set_block(1, 2, 3, Block::Wood, 6).unwrap();
    let mut v = Vec::new();
    let mut i = Vec::new();
    assert_eq!(push_face_axis(&mut v, &mut i, &c, 0, 1, 2, 3, 0b10, Direction::Up), Ok(()));
    assert!(v.is_empty());
    assert_eq!(push_face_axis(&mut v, &mut i, &c, 1, 1, 2, 3, 0b10, Direction::Up), Ok(()));
    assert_eq!(v.len(), 4);
    assert_eq!((v[0] >> 15) & 15, 5);
    assert_eq!((v[0] >> 19) & 15, 6);
    assert_eq!((v[0] >> 5) & 31, 3);
    assert!(push_face_axis(&mut v, &mut i, &c, 1, 1, 2, 30, 0b10, Direction::Up).is_err());
    assert_eq!(v.len(), 4);
}

#[test]
fn push_face_appends_offset_indices() {
    let mut v = vec![0u32; 4];
    let mut i = vec![0u32; 6];
    let f = Face { direction: Direction::Back, depth: 0, row: 1, col: 2, width: 3, height: 4, block: 2, health: 1 };
    push_face(&mut v, &mut i, f);
    assert_eq!(&i[6..], &[4, 5, 6, 4, 6, 7]);
    let w = |x: u32, y: u32, z: u32| (4 << 23) | (1 << 19) | (2 << 15) | (z << 10) | (y << 5) | x;
    assert_eq!(&v[4..], &[w(1, 2, 0), w(1, 6, 0), w(4, 6, 0), w(4, 2, 0)]);
}
