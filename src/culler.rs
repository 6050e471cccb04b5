use vstd::prelude::*;

use crate::chunk::{bit, in_chunk, Chunk, ChunkError, CHUNK_SIZE};
use crate::greedy::{faces_cover_planes, lemma_add_direction, plane_bit, planes_fit, planes_of};
use crate::mesh::{
    face_covers, face_shaded, face_vertices, faces_cover_dirs, faces_cover_visible, lemma_mesh_push,
    mesh_matches, push_face, Face,
};
use crate::quad::Direction;
use crate::visibility::{in_plane, plane_face_visible, ChunkMask, Sides};

verus! {

/// The unit face toward `d` of cell `(x, y, z)`, in plane coordinates,
/// shaded from that cell.
pub open spec fn unit_face(chunk: Chunk, d: Direction, x: u32, y: u32, z: u32) -> Face {
    let (k, i, j) = match d {
        Direction::Left | Direction::Right => (x, y, z),
        Direction::Down | Direction::Up => (y, x, z),
        Direction::Back | Direction::Front => (z, x, y),
    };
    Face {
        direction: d,
        depth: k,
        row: i,
        col: j,
        width: 1,
        height: 1,
        block: chunk.block_at(x as int, y as int, z as int).id() as u32,
        health: chunk.health_at(x as int, y as int, z as int) as u32,
    }
}

/// Appends the unit face toward `direction` of cell `(i, j, k)` when bit
/// `count` of `visible` is set; fails, appending nothing, if that cell is
/// outside the chunk.
pub fn push_face_axis(
    vertices: &mut Vec<u32>,
    indices: &mut Vec<u32>,
    chunk: &Chunk,
    count: u32,
    i: usize,
    j: usize,
    k: usize,
    visible: u32,
    direction: Direction,
) -> (r: Result<(), ChunkError>)
    requires
        chunk.wf(),
        count < 32,
        old(vertices)@.len() + 3 <= u32::MAX,
    ensures
        !bit(visible, count) ==> r is Ok && final(vertices)@ == old(vertices)@ && final(indices)@ == old(indices)@,
        bit(visible, count) && in_chunk(i as int, j as int, k as int) ==> r is Ok
            && final(vertices)@ == old(vertices)@ + face_vertices(unit_face(*chunk, direction, i as u32, j as u32, k as u32))
            && final(indices)@ == old(indices)@ + crate::quad::quad_indices(old(vertices)@.len() as u32),
        bit(visible, count) && !in_chunk(i as int, j as int, k as int) ==> r == Err::<(), ChunkError>(
            ChunkError::IndexOutOfBounds { x: i, y: j, z: k },
        ) && final(vertices)@ == old(vertices)@ && final(indices)@ == old(indices)@,
{
    proof {
        assert(((visible >> count) & 1u32 == 1u32) <==> (visible & (1u32 << count) != 0u32)) by (bit_vector)
            requires
                count < 32,
        ;
    }
    if visible & (1u32 << count) != 0 {
        let block = match chunk.get_block(i, j, k) {
            Ok(b) => b,
            Err(e) => {
                return Err(e);
            },
        };
        let health = match chunk.get_health(i, j, k) {
            Ok(h) => h,
            Err(e) => {
                return Err(e);
            },
        };
        let (x, y, z) = (i as u32, j as u32, k as u32);
        let (depth, row, col) = match direction {
            Direction::Left | Direction::Right => (x, y, z),
            Direction::Down | Direction::Up => (y, x, z),
            Direction::Back | Direction::Front => (z, x, y),
        };
        let f = Face {
            direction,
            depth,
            row,
            col,
            width: 1,
            height: 1,
            block: block.as_u8() as u32,
            health: health as u32,
        };
        push_face(vertices, indices, f);
    }
    Ok(())
}

/// Plane position `(k, i, j)` in scan order.
pub open spec fn scan_pos(k: int, i: int, j: int) -> int {
    k * (CHUNK_SIZE * CHUNK_SIZE) + i * CHUNK_SIZE + j
}

/// Emits one unit face per set bit of the planes of one direction.
/// Returns the faces appended.
fn push_unit_faces(
    vertices: &mut Vec<u32>,
    indices: &mut Vec<u32>,
    planes: &Vec<u32>,
    direction: Direction,
    chunk: &Chunk,
    Ghost(faces): Ghost<Seq<Face>>,
) -> (nf: Ghost<Seq<Face>>)
    requires
        planes_fit(planes@),
        chunk.wf(),
        mesh_matches(faces, old(vertices)@, old(indices)@),
        faces.len() <= 5 * CHUNK_SIZE * CHUNK_SIZE * CHUNK_SIZE,
    ensures
        mesh_matches(faces + nf@, final(vertices)@, final(indices)@),
        nf@.len() <= CHUNK_SIZE * CHUNK_SIZE * CHUNK_SIZE,
        faces_cover_planes(nf@, planes@, direction, *chunk),
        forall|t: int| 0 <= t < nf@.len() ==> (#[trigger] nf@[t]).width == 1 && nf@[t].height == 1,
{
    let ghost mut nf: Seq<Face> = Seq::empty();
    let mut k: usize = 0;
    let mut i: usize = 0;
    let mut j: usize = 0;
    while k < CHUNK_SIZE
        invariant
            k <= CHUNK_SIZE,
            i < CHUNK_SIZE,
            j < CHUNK_SIZE,
            k == CHUNK_SIZE ==> i == 0 && j == 0,
            planes_fit(planes@),
            chunk.wf(),
            faces.len() <= 5 * CHUNK_SIZE * CHUNK_SIZE * CHUNK_SIZE,
            mesh_matches(faces + nf, vertices@, indices@),
            nf.len() <= scan_pos(k as int, i as int, j as int),
            forall|t: int|
                0 <= t < nf.len() ==> (#[trigger] nf[t]).direction == direction && face_shaded(nf[t], *chunk)
                    && nf[t].width == 1 && nf[t].height == 1 && scan_pos(nf[t].depth as int, nf[t].row as int, nf[t].col as int)
                    < scan_pos(k as int, i as int, j as int) && in_plane(nf[t].depth as int, nf[t].row as int, nf[t].col as int),
            forall|t: int, d2: Direction, k2: int, i2: int, j2: int|
                0 <= t < nf.len() && #[trigger] face_covers(nf[t], d2, k2, i2, j2) ==> d2 == direction && in_plane(k2, i2, j2)
                    && plane_bit(planes@, k2, i2, j2),
            forall|k2: int, i2: int, j2: int|
                in_plane(k2, i2, j2) && scan_pos(k2, i2, j2) < scan_pos(k as int, i as int, j as int) && #[trigger] plane_bit(
                    planes@,
                    k2,
                    i2,
                    j2,
                ) ==> exists|t: int| 0 <= t < nf.len() && #[trigger] face_covers(nf[t], direction, k2, i2, j2),
            forall|t1: int, t2: int, d2: Direction, k2: int, i2: int, j2: int|
                0 <= t1 < nf.len() && 0 <= t2 < nf.len() && t1 != t2 && #[trigger] face_covers(nf[t1], d2, k2, i2, j2)
                    ==> !#[trigger] face_covers(nf[t2], d2, k2, i2, j2),
        decreases CHUNK_SIZE * CHUNK_SIZE * CHUNK_SIZE - scan_pos(k as int, i as int, j as int),
    {
        let l = k * CHUNK_SIZE + i;
        let ghost cur = scan_pos(k as int, i as int, j as int);
        let (x, y, z) = match direction {
            Direction::Left | Direction::Right => (k, i, j),
            Direction::Down | Direction::Up => (i, k, j),
            Direction::Back | Direction::Front => (i, j, k),
        };
        let ghost before = nf;
        let ghost vbefore = vertices@;
        let ghost ibefore = indices@;
        proof {
            assert(faces.len() + nf.len() + 3 < 4 * (6 * CHUNK_SIZE * CHUNK_SIZE * CHUNK_SIZE));
            if bit(planes@[l as int], j as u32) {
                lemma_mesh_push(faces + nf, vertices@, indices@, unit_face(*chunk, direction, x as u32, y as u32, z as u32));
            }
        }
        let r = push_face_axis(vertices, indices, chunk, j as u32, x, y, z, planes[l], direction);
        proof {
            assert(r is Ok);
            let f = unit_face(*chunk, direction, x as u32, y as u32, z as u32);
            if bit(planes@[l as int], j as u32) {
                assert((faces + nf).push(f) =~= faces + nf.push(f));
                nf = nf.push(f);
                assert(face_covers(f, direction, k as int, i as int, j as int));
            }
        }
        if j + 1 < CHUNK_SIZE {
            j += 1;
        } else if i + 1 < CHUNK_SIZE {
            j = 0;
            i += 1;
        } else {
            j = 0;
            i = 0;
            k += 1;
        }
        proof {
            assert(scan_pos(k as int, i as int, j as int) == cur + 1);
            assert forall|t: int|
                0 <= t < nf.len() implies (#[trigger] nf[t]).direction == direction && face_shaded(nf[t], *chunk)
                    && nf[t].width == 1 && nf[t].height == 1 && scan_pos(nf[t].depth as int, nf[t].row as int, nf[t].col as int)
                    < scan_pos(k as int, i as int, j as int) && in_plane(nf[t].depth as int, nf[t].row as int, nf[t].col as int) by {
                if t < before.len() {
                    assert(nf[t] == before[t]);
                }
            }
            assert forall|t: int, d2: Direction, k2: int, i2: int, j2: int|
                0 <= t < nf.len() && #[trigger] face_covers(nf[t], d2, k2, i2, j2) implies d2 == direction && in_plane(k2, i2, j2)
                    && plane_bit(planes@, k2, i2, j2) by {
                if t < before.len() {
                    assert(nf[t] == before[t]);
                    assert(face_covers(before[t], d2, k2, i2, j2));
                }
            }
            assert forall|k2: int, i2: int, j2: int|
                in_plane(k2, i2, j2) && scan_pos(k2, i2, j2) < scan_pos(k as int, i as int, j as int) && #[trigger] plane_bit(
                    planes@,
                    k2,
                    i2,
                    j2,
                ) implies exists|t: int| 0 <= t < nf.len() && #[trigger] face_covers(nf[t], direction, k2, i2, j2) by {
                if scan_pos(k2, i2, j2) < cur {
                    let t = choose|t: int| 0 <= t < before.len() && #[trigger] face_covers(before[t], direction, k2, i2, j2);
                    assert(nf[t] == before[t]);
                } else {
                    assert(scan_pos(k2, i2, j2) == cur);
                    assert(nf[nf.len() - 1] == unit_face(*chunk, direction, x as u32, y as u32, z as u32));
                    assert(face_covers(nf[nf.len() - 1], direction, k2, i2, j2));
                }
            }
            assert forall|t1: int, t2: int, d2: Direction, k2: int, i2: int, j2: int|
                0 <= t1 < nf.len() && 0 <= t2 < nf.len() && t1 != t2 && #[trigger] face_covers(nf[t1], d2, k2, i2, j2)
                    implies !#[trigger] face_covers(nf[t2], d2, k2, i2, j2) by {
                if t1 < before.len() && t2 < before.len() {
                    assert(nf[t1] == before[t1]);
                    assert(nf[t2] == before[t2]);
                    assert(face_covers(before[t1], d2, k2, i2, j2));
                    assert(!face_covers(before[t2], d2, k2, i2, j2));
                } else if t1 < before.len() {
                    assert(nf[t1] == before[t1]);
                } else {
                    assert(nf[t2] == before[t2]);
                }
            }
        }
    }
    Ghost(nf)
}

/// A chunk mesh with one quad per visible face.
pub struct CulledMesh {
    pub vertices: Vec<u32>,
    pub indices: Vec<u32>,
    /// The unit faces that the buffers encode, in order.
    pub faces: Ghost<Seq<Face>>,
}

impl CulledMesh {
    /// Meshes `chunk` given its six neighbours (`None`: not loaded, seen as empty).
    pub fn new(
        chunk: &Chunk,
        left: Option<&Chunk>,
        right: Option<&Chunk>,
        bottom: Option<&Chunk>,
        top: Option<&Chunk>,
        back: Option<&Chunk>,
        front: Option<&Chunk>,
    ) -> (r: Self)
        requires
            chunk.wf(),
            (Sides { left, right, bottom, top, back, front }).wf(),
        ensures
            mesh_matches(r.faces@, r.vertices@, r.indices@),
            faces_cover_visible(r.faces@, *chunk, Sides { left, right, bottom, top, back, front }),
            forall|t: int| 0 <= t < r.faces@.len() ==> (#[trigger] r.faces@[t]).width == 1 && r.faces@[t].height == 1,
    {
        let sides = Sides { left, right, bottom, top, back, front };
        let mask = ChunkMask::from_chunk(chunk, &sides);
        let mut vertices: Vec<u32> = Vec::new();
        let mut indices: Vec<u32> = Vec::new();
        let ghost mut faces: Seq<Face> = Seq::empty();
        let ghost mut done: Set<Direction> = Set::empty();
        let order = [
            Direction::Left,
            Direction::Right,
            Direction::Down,
            Direction::Up,
            Direction::Back,
            Direction::Front,
        ];
        let mut n: usize = 0;
        while n < 6
            invariant
                n <= 6,
                order@ == seq![
                    Direction::Left,
                    Direction::Right,
                    Direction::Down,
                    Direction::Up,
                    Direction::Back,
                    Direction::Front,
                ],
                chunk.wf(),
                mask.wf(),
                forall|d: Direction, k: int, i: int, j: int|
                    in_plane(k, i, j) ==> #[trigger] mask.face(d, k, i, j) == plane_face_visible(*chunk, sides, d, k, i, j),
                mesh_matches(faces, vertices@, indices@),
                faces.len() <= n * (CHUNK_SIZE * CHUNK_SIZE * CHUNK_SIZE),
                faces_cover_dirs(faces, *chunk, sides, done),
                forall|t: int| 0 <= t < faces.len() ==> (#[trigger] faces[t]).width == 1 && faces[t].height == 1,
                forall|d: Direction| #[trigger] done.contains(d) <==> exists|m: int| 0 <= m < n && order@[m] == d,
            decreases 6 - n,
        {
            let d = order[n];
            let words = match d {
                Direction::Left => &mask.left,
                Direction::Right => &mask.right,
                Direction::Down => &mask.bottom,
                Direction::Up => &mask.top,
                Direction::Back => &mask.back,
                Direction::Front => &mask.front,
            };
            proof {
                assert(words@ == mask.words(d));
            }
            let planes = planes_of(words);
            proof {
                assert(n * (CHUNK_SIZE * CHUNK_SIZE * CHUNK_SIZE) <= 5 * CHUNK_SIZE * CHUNK_SIZE * CHUNK_SIZE) by (nonlinear_arith)
                    requires
                        n < 6,
                ;
            }
            let nf = push_unit_faces(&mut vertices, &mut indices, &planes, d, chunk, Ghost(faces));
            proof {
                assert forall|k: int, i: int, j: int| in_plane(k, i, j) implies #[trigger] plane_bit(planes@, k, i, j)
                    == plane_face_visible(*chunk, sides, d, k, i, j) by {
                    assert(mask.face(d, k, i, j) == plane_face_visible(*chunk, sides, d, k, i, j));
                }
                assert(!done.contains(d)) by {
                    if done.contains(d) {
                        let m = choose|m: int| 0 <= m < n && order@[m] == d;
                        assert(order@[m] != order@[n as int]);
                    }
                }
                lemma_add_direction(faces, nf@, planes@, d, *chunk, sides, done);
                assert(faces.len() + nf@.len() <= (n + 1) * (CHUNK_SIZE * CHUNK_SIZE * CHUNK_SIZE)) by (nonlinear_arith)
                    requires
                        faces.len() <= n * (CHUNK_SIZE * CHUNK_SIZE * CHUNK_SIZE),
                        nf@.len() <= CHUNK_SIZE * CHUNK_SIZE * CHUNK_SIZE,
                ;
                let all = faces + nf@;
                assert forall|t: int| 0 <= t < all.len() implies (#[trigger] all[t]).width == 1 && all[t].height == 1 by {
                    if t >= faces.len() {
                        assert(all[t] == nf@[t - faces.len()]);
                    } else {
                        assert(all[t] == faces[t]);
                    }
                }
                faces = all;
                done = done.insert(d);
                assert forall|d2: Direction| #[trigger] done.contains(d2) <==> exists|m: int| 0 <= m < n + 1 && order@[m] == d2 by {
                    if d2 == d {
                        assert(order@[n as int] == d2);
                    }
                }
            }
            n += 1;
        }
        proof {
            assert(done =~= Set::full()) by {
                assert forall|d: Direction| done.contains(d) by {
                    match d {
                        Direction::Left => assert(order@[0] == d),
                        Direction::Right => assert(order@[1] == d),
                        Direction::Down => assert(order@[2] == d),
                        Direction::Up => assert(order@[3] == d),
                        Direction::Back => assert(order@[4] == d),
                        Direction::Front => assert(order@[5] == d),
                    }
                }
            }
        }
        CulledMesh { vertices, indices, faces: Ghost(faces) }
    }
}

} // verus!
