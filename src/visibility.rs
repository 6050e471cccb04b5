use vstd::prelude::*;

use crate::chunk::{bit, line_index, word_fits, Chunk, CHUNK_SIZE};
use crate::quad::Direction;

verus! {

/// Bit `i` of `w` is occupied and shows a face toward lower positions: the
/// cell before it is empty, or `i` is the first cell and the neighbouring
/// chunk's last cell on this line (`before`) is empty.
pub open spec fn desc_visible(w: u32, before: bool, i: u32) -> bool {
    bit(w, i) && if i == 0 {
        !before
    } else {
        !bit(w, (i - 1) as u32)
    }
}

/// Bit `i` of `w` is occupied and shows a face toward higher positions: the
/// cell after it is empty, or `i` is the last cell and the neighbouring
/// chunk's first cell on this line (`after`) is empty.
pub open spec fn asc_visible(w: u32, after: bool, i: u32) -> bool {
    bit(w, i) && if i == CHUNK_SIZE - 1 {
        !after
    } else {
        !bit(w, (i + 1) as u32)
    }
}

/// The two visible-face masks of a line: `r.0` toward lower positions,
/// `r.1` toward higher positions.
pub open spec fn line_masks_correct(axis: u32, before: bool, after: bool, r: (u32, u32)) -> bool {
    &&& word_fits(r.0)
    &&& word_fits(r.1)
    &&& forall|i: u32| i < CHUNK_SIZE ==> #[trigger] bit(r.0, i) == desc_visible(axis, before, i)
    &&& forall|i: u32| i < CHUNK_SIZE ==> #[trigger] bit(r.1, i) == asc_visible(axis, after, i)
}

proof fn lemma_line_bits(axis: u32, before: bool, after: bool, i: u32)
    requires
        axis < 0x8000u32,
        i < 15,
    ensures
        bit(!((axis << 1u32) | (if before { 1u32 } else { 0u32 })) & axis, i) == desc_visible(
            axis,
            before,
            i,
        ),
        bit(!((axis >> 1u32) | (if after { 0x4000u32 } else { 0u32 })) & axis, i) == asc_visible(
            axis,
            after,
            i,
        ),
        word_fits(!((axis << 1u32) | (if before { 1u32 } else { 0u32 })) & axis),
        word_fits(!((axis >> 1u32) | (if after { 0x4000u32 } else { 0u32 })) & axis),
{
    let lo: u32 = if before { 1u32 } else { 0u32 };
    let hi: u32 = if after { 0x4000u32 } else { 0u32 };
    assert(((!((axis << 1u32) | lo) & axis) >> i) & 1u32 == 1u32 <==> ((axis >> i) & 1u32 == 1u32
        && if i == 0 {
        lo == 0
    } else {
        (axis >> ((i - 1) as u32)) & 1u32 != 1u32
    })) by (bit_vector)
        requires
            i < 15,
            lo == 0 || lo == 1,
    ;
    assert(((!((axis >> 1u32) | hi) & axis) >> i) & 1u32 == 1u32 <==> ((axis >> i) & 1u32 == 1u32
        && if i == 14 {
        hi == 0
    } else {
        (axis >> ((i + 1) as u32)) & 1u32 != 1u32
    })) by (bit_vector)
        requires
            i < 15,
            hi == 0 || hi == 0x4000u32,
            axis < 0x8000u32,
    ;
    assert(!((axis << 1u32) | lo) & axis < 0x8000u32 && !((axis >> 1u32) | hi) & axis < 0x8000u32)
        by (bit_vector)
        requires
            axis < 0x8000u32,
    ;
}

/// Visible-face masks of one line of 32-bit occupancy: `(toward lower, toward higher)`.
/// `desc` / `asc` tell whether the neighbouring chunk's cell just past the
/// low / high end of the line is occupied.
pub fn line(axis: u32, desc: bool, asc: bool) -> (r: (u32, u32))
    requires
        word_fits(axis),
    ensures
        line_masks_correct(axis, desc, asc, r),
{
    let visible_desc = if desc {
        !(axis << 1u32 | 1u32) & axis
    } else {
        !(axis << 1u32) & axis
    };
    let visible_asc = if asc {
        !(axis >> 1u32 | 0x4000u32) & axis
    } else {
        !(axis >> 1u32) & axis
    };
    proof {
        assert((axis << 1u32) | 0u32 == axis << 1u32) by (bit_vector);
        assert((axis >> 1u32) | 0u32 == axis >> 1u32) by (bit_vector);
        assert forall|i: u32| i < CHUNK_SIZE implies #[trigger] bit(visible_desc, i) == desc_visible(
            axis,
            desc,
            i,
        ) by {
            lemma_line_bits(axis, desc, asc, i);
        }
        assert forall|i: u32| i < CHUNK_SIZE implies #[trigger] bit(visible_asc, i) == asc_visible(
            axis,
            asc,
            i,
        ) by {
            lemma_line_bits(axis, desc, asc, i);
        }
        lemma_line_bits(axis, desc, asc, 0);
    }
    (visible_desc, visible_asc)
}

/// The same masks for a 16-bit line word, in the order `(toward higher, toward lower)`.
pub fn line_axis(axis: u16, before: bool, after: bool) -> (r: (u16, u16))
    requires
        word_fits(axis as u32),
    ensures
        line_masks_correct(axis as u32, before, after, (r.1 as u32, r.0 as u32)),
{
    let visible_asc: u16 = if after {
        !(axis >> 1u16 | 0x4000u16) & axis
    } else {
        !(axis >> 1u16) & axis
    };
    let visible_desc: u16 = if before {
        !(axis << 1u16 | 1u16) & axis
    } else {
        !(axis << 1u16) & axis
    };
    let w = axis as u32;
    proof {
        let lo: u32 = if before { 1u32 } else { 0u32 };
        let hi: u32 = if after { 0x4000u32 } else { 0u32 };
        let lo16: u16 = if before { 1u16 } else { 0u16 };
        let hi16: u16 = if after { 0x4000u16 } else { 0u16 };
        assert(visible_asc == !((axis >> 1u16) | hi16) & axis) by (bit_vector)
            requires
                visible_asc == (if hi16 == 0x4000u16 {
                    !(axis >> 1u16 | 0x4000u16) & axis
                } else {
                    !(axis >> 1u16) & axis
                }),
                hi16 == 0 || hi16 == 0x4000u16,
        ;
        assert(visible_desc == !((axis << 1u16) | lo16) & axis) by (bit_vector)
            requires
                visible_desc == (if lo16 == 1u16 {
                    !(axis << 1u16 | 1u16) & axis
                } else {
                    !(axis << 1u16) & axis
                }),
                lo16 == 0 || lo16 == 1u16,
        ;
        assert((!((axis >> 1u16) | hi16) & axis) as u32 == !((w >> 1u32) | hi) & w) by (bit_vector)
            requires
                w == axis as u32,
                (hi16 == 0 && hi == 0) || (hi16 == 0x4000u16 && hi == 0x4000u32),
        ;
        assert((!((axis << 1u16) | lo16) & axis) as u32 == !((w << 1u32) | lo) & w) by (bit_vector)
            requires
                w == axis as u32,
                (lo16 == 0 && lo == 0) || (lo16 == 1u16 && lo == 1u32),
        ;
        assert forall|i: u32| i < CHUNK_SIZE implies #[trigger] bit(visible_desc as u32, i)
            == desc_visible(w, before, i) by {
            lemma_line_bits(w, before, after, i);
        }
        assert forall|i: u32| i < CHUNK_SIZE implies #[trigger] bit(visible_asc as u32, i)
            == asc_visible(w, after, i) by {
            lemma_line_bits(w, before, after, i);
        }
        lemma_line_bits(w, before, after, 0);
    }
    (visible_asc, visible_desc)
}

/// The cell of plane coordinates `(k, i, j)` for faces toward `d`: `k` runs
/// along the normal, `(i, j)` index the line word of that axis.
pub open spec fn plane_cell(d: Direction, k: int, i: int, j: int) -> (int, int, int) {
    match d {
        Direction::Left | Direction::Right => (k, i, j),
        Direction::Down | Direction::Up => (i, k, j),
        Direction::Back | Direction::Front => (i, j, k),
    }
}

pub open spec fn in_plane(k: int, i: int, j: int) -> bool {
    0 <= k < CHUNK_SIZE && 0 <= i < CHUNK_SIZE && 0 <= j < CHUNK_SIZE
}

/// Occupancy of a cell of a neighbouring chunk; a missing neighbour is empty.
pub open spec fn side_occupied(n: Option<&Chunk>, x: int, y: int, z: int) -> bool {
    match n {
        Some(c) => c.occupied(x, y, z),
        None => false,
    }
}

/// The six neighbouring chunks of a chunk, each possibly not loaded.
pub struct Sides<'a> {
    pub left: Option<&'a Chunk>,
    pub right: Option<&'a Chunk>,
    pub bottom: Option<&'a Chunk>,
    pub top: Option<&'a Chunk>,
    pub back: Option<&'a Chunk>,
    pub front: Option<&'a Chunk>,
}

impl<'a> Sides<'a> {
    pub open spec fn wf(self) -> bool {
        &&& (self.left matches Some(c) ==> c.wf())
        &&& (self.right matches Some(c) ==> c.wf())
        &&& (self.bottom matches Some(c) ==> c.wf())
        &&& (self.top matches Some(c) ==> c.wf())
        &&& (self.back matches Some(c) ==> c.wf())
        &&& (self.front matches Some(c) ==> c.wf())
    }
}

/// Whether the cell just across the face of `(x, y, z)` toward `d` is
/// occupied, looking into the neighbouring chunk at the chunk's edge.
pub open spec fn across_occupied(c: Chunk, s: Sides, d: Direction, x: int, y: int, z: int) -> bool {
    let last = CHUNK_SIZE - 1;
    match d {
        Direction::Left => if x == 0 { side_occupied(s.left, last, y, z) } else { c.occupied(x - 1, y, z) },
        Direction::Right => if x == last { side_occupied(s.right, 0, y, z) } else { c.occupied(x + 1, y, z) },
        Direction::Down => if y == 0 { side_occupied(s.bottom, x, last, z) } else { c.occupied(x, y - 1, z) },
        Direction::Up => if y == last { side_occupied(s.top, x, 0, z) } else { c.occupied(x, y + 1, z) },
        Direction::Back => if z == 0 { side_occupied(s.back, x, y, last) } else { c.occupied(x, y, z - 1) },
        Direction::Front => if z == last { side_occupied(s.front, x, y, 0) } else { c.occupied(x, y, z + 1) },
    }
}

/// The face of cell `(x, y, z)` toward `d` is drawn: the cell is occupied
/// and the cell across that face is not.
pub open spec fn face_visible(c: Chunk, s: Sides, d: Direction, x: int, y: int, z: int) -> bool {
    c.occupied(x, y, z) && !across_occupied(c, s, d, x, y, z)
}

/// `face_visible` in plane coordinates.
pub open spec fn plane_face_visible(c: Chunk, s: Sides, d: Direction, k: int, i: int, j: int) -> bool {
    let p = plane_cell(d, k, i, j);
    face_visible(c, s, d, p.0, p.1, p.2)
}

/// The six visible-face masks of a chunk, one word per line:
/// `left[i + j * N]` has bit `k` set when the face toward `Left` of the
/// cell at plane coordinates `(k, i, j)` is visible, and so on.
pub struct ChunkMask {
    pub left: Vec<u32>,
    pub right: Vec<u32>,
    pub bottom: Vec<u32>,
    pub top: Vec<u32>,
    pub back: Vec<u32>,
    pub front: Vec<u32>,
}

impl ChunkMask {
    pub open spec fn words(self, d: Direction) -> Seq<u32> {
        match d {
            Direction::Left => self.left@,
            Direction::Right => self.right@,
            Direction::Down => self.bottom@,
            Direction::Up => self.top@,
            Direction::Back => self.back@,
            Direction::Front => self.front@,
        }
    }

    /// Bit `k` of line `(i, j)` in the mask of direction `d`.
    pub open spec fn face(self, d: Direction, k: int, i: int, j: int) -> bool {
        bit(self.words(d)[line_index(i, j)], k as u32)
    }

    pub open spec fn wf(self) -> bool {
        forall|d: Direction|
            #![trigger self.words(d)]
            self.words(d).len() == CHUNK_SIZE * CHUNK_SIZE && forall|l: int|
                0 <= l < CHUNK_SIZE * CHUNK_SIZE ==> word_fits(#[trigger] self.words(d)[l])
    }

    /// Masks with no face set.
    pub fn new() -> (r: Self)
        ensures
            r.wf(),
            forall|d: Direction, k: int, i: int, j: int|
                in_plane(k, i, j) ==> !#[trigger] r.face(d, k, i, j),
    {
        let r = ChunkMask {
            left: vec![0u32; CHUNK_SIZE * CHUNK_SIZE],
            right: vec![0u32; CHUNK_SIZE * CHUNK_SIZE],
            bottom: vec![0u32; CHUNK_SIZE * CHUNK_SIZE],
            top: vec![0u32; CHUNK_SIZE * CHUNK_SIZE],
            back: vec![0u32; CHUNK_SIZE * CHUNK_SIZE],
            front: vec![0u32; CHUNK_SIZE * CHUNK_SIZE],
        };
        proof {
            assert forall|i: u32| !bit(0u32, i) by {
                assert((0u32 >> i) & 1u32 == 0u32) by (bit_vector);
            }
            assert forall|d: Direction, k: int, i: int, j: int| in_plane(k, i, j) implies !#[trigger] r.face(
                d,
                k,
                i,
                j,
            ) by {
                crate::chunk::lemma_line_index_bounds(i, j);
            }
        }
        r
    }

    /// Visible-face masks of `chunk` given its neighbours.
    pub fn from_chunk(chunk: &Chunk, sides: &Sides) -> (r: Self)
        requires
            chunk.wf(),
            sides.wf(),
        ensures
            r.wf(),
            forall|d: Direction, k: int, i: int, j: int|
                in_plane(k, i, j) ==> #[trigger] r.face(d, k, i, j) == plane_face_visible(
                    *chunk,
                    *sides,
                    d,
                    k,
                    i,
                    j,
                ),
    {
        let mut left: Vec<u32> = Vec::new();
        let mut right: Vec<u32> = Vec::new();
        let mut bottom: Vec<u32> = Vec::new();
        let mut top: Vec<u32> = Vec::new();
        let mut back: Vec<u32> = Vec::new();
        let mut front: Vec<u32> = Vec::new();
        let mut j: usize = 0;
        while j < CHUNK_SIZE
            invariant
                j <= CHUNK_SIZE,
                chunk.wf(),
                sides.wf(),
                left@.len() == j * CHUNK_SIZE,
                right@.len() == j * CHUNK_SIZE,
                bottom@.len() == j * CHUNK_SIZE,
                top@.len() == j * CHUNK_SIZE,
                back@.len() == j * CHUNK_SIZE,
                front@.len() == j * CHUNK_SIZE,
                forall|l: int| 0 <= l < j * CHUNK_SIZE ==> word_fits(#[trigger] left@[l]),
                forall|l: int| 0 <= l < j * CHUNK_SIZE ==> word_fits(#[trigger] right@[l]),
                forall|l: int| 0 <= l < j * CHUNK_SIZE ==> word_fits(#[trigger] bottom@[l]),
                forall|l: int| 0 <= l < j * CHUNK_SIZE ==> word_fits(#[trigger] top@[l]),
                forall|l: int| 0 <= l < j * CHUNK_SIZE ==> word_fits(#[trigger] back@[l]),
                forall|l: int| 0 <= l < j * CHUNK_SIZE ==> word_fits(#[trigger] front@[l]),
                forall|k: int, i: int, jj: int|
                    #![trigger bit(left@[line_index(i, jj)], k as u32)]
                    in_plane(k, i, jj) && jj < j ==> line_faces_hold(*chunk, *sides, left@[line_index(i, jj)], right@[line_index(i, jj)],
                        bottom@[line_index(i, jj)], top@[line_index(i, jj)], back@[line_index(i, jj)], front@[line_index(i, jj)], k, i, jj),
            decreases CHUNK_SIZE - j,
        {
            let mut i: usize = 0;
            while i < CHUNK_SIZE
                invariant
                    i <= CHUNK_SIZE,
                    j < CHUNK_SIZE,
                    chunk.wf(),
                    sides.wf(),
                    left@.len() == i + j * CHUNK_SIZE,
                    right@.len() == i + j * CHUNK_SIZE,
                    bottom@.len() == i + j * CHUNK_SIZE,
                    top@.len() == i + j * CHUNK_SIZE,
                    back@.len() == i + j * CHUNK_SIZE,
                    front@.len() == i + j * CHUNK_SIZE,
                    forall|l: int| 0 <= l < i + j * CHUNK_SIZE ==> word_fits(#[trigger] left@[l]),
                    forall|l: int| 0 <= l < i + j * CHUNK_SIZE ==> word_fits(#[trigger] right@[l]),
                    forall|l: int| 0 <= l < i + j * CHUNK_SIZE ==> word_fits(#[trigger] bottom@[l]),
                    forall|l: int| 0 <= l < i + j * CHUNK_SIZE ==> word_fits(#[trigger] top@[l]),
                    forall|l: int| 0 <= l < i + j * CHUNK_SIZE ==> word_fits(#[trigger] back@[l]),
                    forall|l: int| 0 <= l < i + j * CHUNK_SIZE ==> word_fits(#[trigger] front@[l]),
                    forall|k: int, ii: int, jj: int|
                        #![trigger bit(left@[line_index(ii, jj)], k as u32)]
                        in_plane(k, ii, jj) && (jj < j || (jj == j && ii < i)) ==> line_faces_hold(*chunk, *sides, left@[line_index(ii, jj)], right@[line_index(ii, jj)],
                            bottom@[line_index(ii, jj)], top@[line_index(ii, jj)], back@[line_index(ii, jj)], front@[line_index(ii, jj)], k, ii, jj),
                decreases CHUNK_SIZE - i,
            {
                let m = line_masks(chunk, sides, i, j);
                proof {
                    crate::chunk::lemma_line_index_bounds(i as int, j as int);
                }
                left.push(m.0);
                right.push(m.1);
                bottom.push(m.2);
                top.push(m.3);
                back.push(m.4);
                front.push(m.5);
                proof {
                    assert forall|k: int, ii: int, jj: int|
                        #![trigger bit(left@[line_index(ii, jj)], k as u32)]
                        in_plane(k, ii, jj) && (jj < j || (jj == j && ii <= i)) implies line_faces_hold(*chunk, *sides, left@[line_index(ii, jj)], right@[line_index(ii, jj)],
                            bottom@[line_index(ii, jj)], top@[line_index(ii, jj)], back@[line_index(ii, jj)], front@[line_index(ii, jj)], k, ii, jj) by {
                        crate::chunk::lemma_line_index_bounds(ii, jj);
                        crate::chunk::lemma_line_index_inj(ii, jj, i as int, j as int);
                        if jj == j && ii == i {
                        } else {
                            assert(line_index(ii, jj) < i + j * CHUNK_SIZE);
                        }
                    }
                }
                i += 1;
            }
            j += 1;
        }
        let r = ChunkMask { left, right, bottom, top, back, front };
        proof {
            assert forall|d: Direction, k: int, i: int, jj: int| in_plane(k, i, jj) implies #[trigger] r.face(d, k, i, jj)
                == plane_face_visible(*chunk, *sides, d, k, i, jj) by {
                crate::chunk::lemma_line_index_bounds(i, jj);
                assert(bit(left@[line_index(i, jj)], k as u32) == bit(left@[line_index(i, jj)], k as u32));
                assert(line_faces_hold(*chunk, *sides, left@[line_index(i, jj)], right@[line_index(i, jj)],
                            bottom@[line_index(i, jj)], top@[line_index(i, jj)], back@[line_index(i, jj)], front@[line_index(i, jj)], k, i, jj));
                match d {
                    Direction::Left => {},
                    Direction::Right => {},
                    Direction::Down => {},
                    Direction::Up => {},
                    Direction::Back => {},
                    Direction::Front => {},
                }
            }
            assert forall|d: Direction| #![trigger r.words(d)] r.words(d).len() == CHUNK_SIZE * CHUNK_SIZE
                && forall|l: int| 0 <= l < CHUNK_SIZE * CHUNK_SIZE ==> word_fits(#[trigger] r.words(d)[l]) by {
                match d {
                    Direction::Left => {},
                    Direction::Right => {},
                    Direction::Down => {},
                    Direction::Up => {},
                    Direction::Back => {},
                    Direction::Front => {},
                }
            }
        }
        r
    }
}

/// The six words of line `(i, j)` hold bit `k` exactly when the matching face is visible.
pub open spec fn line_faces_hold(c: Chunk, s: Sides, l: u32, r: u32, b: u32, t: u32, bk: u32, f: u32, k: int, i: int, j: int) -> bool {
    &&& bit(l, k as u32) == plane_face_visible(c, s, Direction::Left, k, i, j)
    &&& bit(r, k as u32) == plane_face_visible(c, s, Direction::Right, k, i, j)
    &&& bit(b, k as u32) == plane_face_visible(c, s, Direction::Down, k, i, j)
    &&& bit(t, k as u32) == plane_face_visible(c, s, Direction::Up, k, i, j)
    &&& bit(bk, k as u32) == plane_face_visible(c, s, Direction::Back, k, i, j)
    &&& bit(f, k as u32) == plane_face_visible(c, s, Direction::Front, k, i, j)
}

/// Whether the neighbour has bit `k` set in its line word `l` of one axis.
fn side_bit(side: Option<&Vec<u32>>, l: usize, k: u32) -> (r: bool)
    requires
        k < 32,
        side matches Some(v) ==> l < v@.len(),
    ensures
        r == match side {
            Some(v) => bit(v@[l as int], k),
            None => false,
        },
{
    match side {
        Some(v) => {
            let w = v[l];
            proof {
                assert((w >> k) & 1u32 == 1u32 <==> (w & (1u32 << k)) != 0u32) by (bit_vector)
                    requires
                        k < 32,
                ;
            }
            w & (1u32 << k) != 0
        },
        None => false,
    }
}

/// The six visible-face masks of line `(i, j)`:
/// `(left, right, bottom, top, back, front)`.
pub fn line_masks(chunk: &Chunk, sides: &Sides, i: usize, j: usize) -> (r: (u32, u32, u32, u32, u32, u32))
    requires
        chunk.wf(),
        sides.wf(),
        i < CHUNK_SIZE,
        j < CHUNK_SIZE,
    ensures
        word_fits(r.0) && word_fits(r.1) && word_fits(r.2) && word_fits(r.3) && word_fits(r.4) && word_fits(r.5),
        forall|k: int| 0 <= k < CHUNK_SIZE ==> #[trigger] line_faces_hold(*chunk, *sides, r.0, r.1, r.2, r.3, r.4, r.5, k, i as int, j as int),
{
    proof {
        crate::chunk::lemma_line_index_bounds(i as int, j as int);
    }
    let l = i + j * CHUNK_SIZE;
    let last = (CHUNK_SIZE - 1) as u32;
    let left = side_bit(match sides.left { Some(c) => Some(&c.x_axis), None => None }, l, last);
    let right = side_bit(match sides.right { Some(c) => Some(&c.x_axis), None => None }, l, 0);
    let bottom = side_bit(match sides.bottom { Some(c) => Some(&c.y_axis), None => None }, l, last);
    let top = side_bit(match sides.top { Some(c) => Some(&c.y_axis), None => None }, l, 0);
    let back = side_bit(match sides.back { Some(c) => Some(&c.z_axis), None => None }, l, last);
    let front = side_bit(match sides.front { Some(c) => Some(&c.z_axis), None => None }, l, 0);
    let (visible_left, visible_right) = line(chunk.x_axis[l], left, right);
    let (visible_bottom, visible_top) = line(chunk.y_axis[l], bottom, top);
    let (visible_back, visible_front) = line(chunk.z_axis[l], back, front);
    proof {
        let c = *chunk;
        let s = *sides;
        if let Some(n) = s.left {
            assert(n.x_bit(14, i as int, j as int) == n.occupied(14, i as int, j as int));
        }
        if let Some(n) = s.right {
            assert(n.x_bit(0, i as int, j as int) == n.occupied(0, i as int, j as int));
        }
        if let Some(n) = s.bottom {
            assert(n.y_bit(i as int, 14, j as int) == n.occupied(i as int, 14, j as int));
        }
        if let Some(n) = s.top {
            assert(n.y_bit(i as int, 0, j as int) == n.occupied(i as int, 0, j as int));
        }
        if let Some(n) = s.back {
            assert(n.z_bit(i as int, j as int, 14) == n.occupied(i as int, j as int, 14));
        }
        if let Some(n) = s.front {
            assert(n.z_bit(i as int, j as int, 0) == n.occupied(i as int, j as int, 0));
        }
        assert(left == side_occupied(s.left, 14, i as int, j as int));
        assert(right == side_occupied(s.right, 0, i as int, j as int));
        assert(bottom == side_occupied(s.bottom, i as int, 14, j as int));
        assert(top == side_occupied(s.top, i as int, 0, j as int));
        assert(back == side_occupied(s.back, i as int, j as int, 14));
        assert(front == side_occupied(s.front, i as int, j as int, 0));
        assert forall|k: int| 0 <= k < CHUNK_SIZE implies #[trigger] line_faces_hold(c, s, visible_left, visible_right,
            visible_bottom, visible_top, visible_back, visible_front, k, i as int, j as int) by {
            let ku = k as u32;
            assert(bit(visible_left, ku) == desc_visible(c.x_axis@[l as int], left, ku));
            assert(bit(visible_right, ku) == asc_visible(c.x_axis@[l as int], right, ku));
            assert(bit(visible_bottom, ku) == desc_visible(c.y_axis@[l as int], bottom, ku));
            assert(bit(visible_top, ku) == asc_visible(c.y_axis@[l as int], top, ku));
            assert(bit(visible_back, ku) == desc_visible(c.z_axis@[l as int], back, ku));
            assert(bit(visible_front, ku) == asc_visible(c.z_axis@[l as int], front, ku));
            assert(c.x_bit(k, i as int, j as int) == c.occupied(k, i as int, j as int));
            assert(c.y_bit(i as int, k, j as int) == c.occupied(i as int, k, j as int));
            assert(c.z_bit(i as int, j as int, k) == c.occupied(i as int, j as int, k));
            if k > 0 {
                assert(c.x_bit(k - 1, i as int, j as int) == c.occupied(k - 1, i as int, j as int));
                assert(c.y_bit(i as int, k - 1, j as int) == c.occupied(i as int, k - 1, j as int));
                assert(c.z_bit(i as int, j as int, k - 1) == c.occupied(i as int, j as int, k - 1));
            }
            if k < 14 {
                assert(c.x_bit(k + 1, i as int, j as int) == c.occupied(k + 1, i as int, j as int));
                assert(c.y_bit(i as int, k + 1, j as int) == c.occupied(i as int, k + 1, j as int));
                assert(c.z_bit(i as int, j as int, k + 1) == c.occupied(i as int, j as int, k + 1));
            }
        }
    }
    (visible_left, visible_right, visible_bottom, visible_top, visible_back, visible_front)
}

/// Where chunk `b` is the right neighbour of chunk `a` (and `a` the left
/// neighbour of `b`), the face of `a`'s last cell toward `b` is visible
/// exactly when that cell is occupied and `b`'s first cell on the same line
/// is not, and symmetrically; so two occupied cells facing each other across
/// the boundary show no face.
pub proof fn lemma_shared_boundary(a: Chunk, b: Chunk, sa: Sides, sb: Sides, y: int, z: int)
    requires
        sa.right == Some(&b),
        sb.left == Some(&a),
        0 <= y < CHUNK_SIZE,
        0 <= z < CHUNK_SIZE,
    ensures
        face_visible(a, sa, Direction::Right, CHUNK_SIZE - 1, y, z) == (a.occupied(CHUNK_SIZE - 1, y, z)
            && !b.occupied(0, y, z)),
        face_visible(b, sb, Direction::Left, 0, y, z) == (b.occupied(0, y, z) && !a.occupied(
            CHUNK_SIZE - 1,
            y,
            z,
        )),
        a.occupied(CHUNK_SIZE - 1, y, z) && b.occupied(0, y, z) ==> !face_visible(
            a,
            sa,
            Direction::Right,
            CHUNK_SIZE - 1,
            y,
            z,
        ) && !face_visible(b, sb, Direction::Left, 0, y, z),
{
}

/// A side with no neighbouring chunk shows the face of every occupied cell
/// on that edge of the chunk.
pub proof fn lemma_missing_side(c: Chunk, s: Sides, u: int, v: int)
    requires
        0 <= u < CHUNK_SIZE,
        0 <= v < CHUNK_SIZE,
    ensures
        s.left is None ==> face_visible(c, s, Direction::Left, 0, u, v) == c.occupied(0, u, v),
        s.right is None ==> face_visible(c, s, Direction::Right, CHUNK_SIZE - 1, u, v) == c.occupied(
            CHUNK_SIZE - 1,
            u,
            v,
        ),
        s.bottom is None ==> face_visible(c, s, Direction::Down, u, 0, v) == c.occupied(u, 0, v),
        s.top is None ==> face_visible(c, s, Direction::Up, u, CHUNK_SIZE - 1, v) == c.occupied(
            u,
            CHUNK_SIZE - 1,
            v,
        ),
        s.back is None ==> face_visible(c, s, Direction::Back, u, v, 0) == c.occupied(u, v, 0),
        s.front is None ==> face_visible(c, s, Direction::Front, u, v, CHUNK_SIZE - 1) == c.occupied(
            u,
            v,
            CHUNK_SIZE - 1,
        ),
{
}

} // verus!
