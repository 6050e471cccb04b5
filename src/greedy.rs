use vstd::prelude::*;
use vstd::std_specs::bits::{axiom_u32_trailing_ones, axiom_u32_trailing_zeros};

use crate::chunk::{bit, line_index, word_fits, Chunk, CHUNK_SIZE};
use crate::mesh::{
    face_covers, face_shaded, faces_cover_dirs, faces_cover_visible, lemma_mesh_push, mesh_matches,
    push_face, rect_face, shade_rect, Face,
};
use crate::quad::Direction;
use crate::visibility::{in_plane, plane_face_visible, ChunkMask, Sides};

verus! {

/// A rectangle of faces in one plane: rows `row .. row + width` and bit
/// columns `col .. col + height`.
#[derive(Debug, Clone, Copy, PartialEq, Eq, Structural)]
pub struct Rect {
    pub row: u32,
    pub col: u32,
    pub width: u32,
    pub height: u32,
}

pub open spec fn rect_has(r: Rect, a: int, b: int) -> bool {
    r.row <= a < r.row + r.width && r.col <= b < r.col + r.height
}

/// The cells `(a, b)` with `r0 <= a < r0 + w` and `c0 <= b < c0 + h`.
pub open spec fn grid(r0: int, c0: int, w: int, h: int) -> Set<(int, int)> {
    Set::new(|p: (int, int)| r0 <= p.0 < r0 + w && c0 <= p.1 < c0 + h)
}

/// The set cells of a plane of `CHUNK_SIZE` row words.
pub open spec fn plane_set(rows: Seq<u32>) -> Set<(int, int)> {
    Set::new(
        |p: (int, int)|
            0 <= p.0 < CHUNK_SIZE && 0 <= p.1 < CHUNK_SIZE && bit(rows[p.0], p.1 as u32),
    )
}

/// Sum of the areas of the rectangles.
pub open spec fn area_sum(rs: Seq<Rect>) -> int
    decreases rs.len(),
{
    if rs.len() == 0 {
        0
    } else {
        area_sum(rs.drop_last()) + rs.last().width * rs.last().height
    }
}

/// The rectangles lie in the plane, are non-empty, hold only set cells,
/// cover every set cell, and no two share a cell.
pub open spec fn rects_partition(rows: Seq<u32>, rs: Seq<Rect>) -> bool {
    &&& forall|t: int|
        0 <= t < rs.len() ==> #[trigger] rs[t].width >= 1 && rs[t].height >= 1 && rs[t].row
            + rs[t].width <= CHUNK_SIZE && rs[t].col + rs[t].height <= CHUNK_SIZE
    &&& forall|t: int, a: int, b: int|
        0 <= t < rs.len() && #[trigger] rect_has(rs[t], a, b) ==> bit(rows[a], b as u32)
    &&& forall|a: int, b: int|
        0 <= a < CHUNK_SIZE && 0 <= b < CHUNK_SIZE && #[trigger] bit(rows[a], b as u32) ==> exists|t: int|
            0 <= t < rs.len() && #[trigger] rect_has(rs[t], a, b)
    &&& forall|t1: int, t2: int, a: int, b: int|
        0 <= t1 < rs.len() && 0 <= t2 < rs.len() && t1 != t2 && #[trigger] rect_has(rs[t1], a, b)
            ==> !#[trigger] rect_has(rs[t2], a, b)
}

/// A cell still to be merged while scanning row `i` from column `j`.
pub open spec fn live(rows: Seq<u32>, i: int, j: int, a: int, b: int) -> bool {
    0 <= a < CHUNK_SIZE && 0 <= b < CHUNK_SIZE && ((i < a && bit(rows[a], b as u32)) || (a == i
        && j <= b && bit(rows[i], b as u32)))
}

/// What the scan keeps: `covered` is the union of the rectangles so far,
/// of set cells only, with their total area as its size; rectangles are
/// disjoint and inside the plane.
pub open spec fn rects_inv(orig: Seq<u32>, rs: Seq<Rect>, covered: Set<(int, int)>) -> bool {
    &&& covered.finite()
    &&& covered.len() == area_sum(rs)
    &&& forall|p: (int, int)|
        #[trigger] covered.contains(p) ==> 0 <= p.0 < CHUNK_SIZE && 0 <= p.1 < CHUNK_SIZE && bit(
            orig[p.0],
            p.1 as u32,
        )
    &&& forall|t: int, a: int, b: int|
        0 <= t < rs.len() && #[trigger] rect_has(rs[t], a, b) ==> covered.contains((a, b))
    &&& forall|p: (int, int)|
        #[trigger] covered.contains(p) ==> exists|t: int|
            0 <= t < rs.len() && #[trigger] rect_has(rs[t], p.0, p.1)
    &&& forall|t1: int, t2: int, a: int, b: int|
        0 <= t1 < rs.len() && 0 <= t2 < rs.len() && t1 != t2 && #[trigger] rect_has(rs[t1], a, b)
            ==> !#[trigger] rect_has(rs[t2], a, b)
    &&& forall|t: int|
        0 <= t < rs.len() ==> #[trigger] rs[t].width >= 1 && rs[t].height >= 1 && rs[t].row
            + rs[t].width <= CHUNK_SIZE && rs[t].col + rs[t].height <= CHUNK_SIZE
}

proof fn lemma_row_len(a: int, c0: int, h: int)
    requires
        h >= 0,
    ensures
        grid(a, c0, 1, h).finite(),
        grid(a, c0, 1, h).len() == h,
    decreases h,
{
    if h == 0 {
        assert(grid(a, c0, 1, h) =~= Set::empty());
    } else {
        lemma_row_len(a, c0, h - 1);
        assert(grid(a, c0, 1, h) =~= grid(a, c0, 1, h - 1).insert((a, c0 + h - 1)));
    }
}

proof fn lemma_grid_len(r0: int, c0: int, w: int, h: int)
    requires
        w >= 0,
        h >= 0,
    ensures
        grid(r0, c0, w, h).finite(),
        grid(r0, c0, w, h).len() == w * h,
    decreases w,
{
    if w == 0 {
        assert(grid(r0, c0, w, h) =~= Set::empty());
    } else {
        let g1 = grid(r0, c0, w - 1, h);
        let g2 = grid(r0 + w - 1, c0, 1, h);
        lemma_grid_len(r0, c0, w - 1, h);
        lemma_row_len(r0 + w - 1, c0, h);
        assert(grid(r0, c0, w, h) =~= g1 + g2);
        assert(g1.disjoint(g2));
        vstd::set_lib::lemma_set_disjoint_lens(g1, g2);
        assert((w - 1) * h + h == w * h) by (nonlinear_arith);
    }
}

proof fn lemma_shift_bit(w: u32, j: u32, t: u32)
    requires
        j + t < 32,
    ensures
        bit(w >> j, t) == bit(w, (j + t) as u32),
{
    assert(((w >> j) >> t) & 1u32 == 1u32 <==> (w >> ((j + t) as u32)) & 1u32 == 1u32) by (bit_vector)
        requires
            j + t < 32,
    ;
}

proof fn lemma_high_bits_clear(w: u32, b: u32)
    requires
        word_fits(w),
        15 <= b < 32,
    ensures
        !bit(w, b),
{
    assert((w >> b) & 1u32 != 1u32) by (bit_vector)
        requires
            w < 0x8000u32,
            15 <= b < 32,
    ;
}

/// The mask of the low `h` bits.
pub open spec fn run_mask(h: u32) -> u32 {
    ((1u32 << h) - 1u32) as u32
}

proof fn lemma_span(w: u32, j: u32, h: u32, b: u32)
    requires
        1 <= h <= 15,
        j < 15,
        b < 32,
    ensures
        ((w >> j) & run_mask(h)) == run_mask(h) && j <= b < j + h ==> bit(w, b),
        bit(w & !(run_mask(h) << j), b) == (bit(w, b) && !(j <= b < j + h)),
        word_fits(w) ==> word_fits(w & !(run_mask(h) << j)),
{
    assert(((w >> j) & run_mask(h)) == run_mask(h) && j <= b && b < j + h ==> (w
        >> b) & 1u32 == 1u32) by (bit_vector)
        requires
            1 <= h <= 15,
            j < 15,
            b < 32,
    ;
    assert(((w & !(run_mask(h) << j)) >> b) & 1u32 == 1u32 <==> ((w >> b) & 1u32 == 1u32
        && !(j <= b && b < j + h))) by (bit_vector)
        requires
            1 <= h <= 15,
            j < 15,
            b < 32,
    ;
    assert(w < 0x8000u32 ==> (w & !(run_mask(h) << j)) < 0x8000u32) by (bit_vector);
}

/// Merges the set cells of a plane into rectangles: scanning rows in order
/// and columns upward, each run of set bits is grown over the following
/// rows while they hold the same run, and those rows give up the run.
pub fn greedy_plane(plane: Vec<u32>) -> (rects: Vec<Rect>)
    requires
        plane@.len() == CHUNK_SIZE,
        forall|a: int| 0 <= a < CHUNK_SIZE ==> word_fits(#[trigger] plane@[a]),
    ensures
        rects_partition(plane@, rects@),
        area_sum(rects@) == plane_set(plane@).len(),
        rects@.len() <= CHUNK_SIZE * CHUNK_SIZE,
{
    let ghost orig = plane@;
    let mut rows = plane;
    let mut rects: Vec<Rect> = Vec::new();
    let ghost mut covered: Set<(int, int)> = Set::empty();
    let n = CHUNK_SIZE;
    let mut i: usize = 0;
    while i < n
        invariant
            n == CHUNK_SIZE,
            i <= CHUNK_SIZE,
            rows@.len() == CHUNK_SIZE,
            orig.len() == CHUNK_SIZE,
            forall|a: int| 0 <= a < CHUNK_SIZE ==> word_fits(#[trigger] rows@[a]),
            forall|a: int, b: int|
                #[trigger] live(rows@, i as int, 0, a, b) ==> bit(orig[a], b as u32)
                    && !covered.contains((a, b)),
            forall|a: int, b: int|
                0 <= a < CHUNK_SIZE && 0 <= b < CHUNK_SIZE && bit(orig[a], b as u32) && !live(
                    rows@,
                    i as int,
                    0,
                    a,
                    b,
                ) ==> #[trigger] covered.contains((a, b)),
            rects_inv(orig, rects@, covered),
        decreases CHUNK_SIZE - i,
    {
        let mut j: u32 = 0;
        while j < n as u32
            invariant
                n == CHUNK_SIZE,
                i < CHUNK_SIZE,
                j <= CHUNK_SIZE,
                rows@.len() == CHUNK_SIZE,
                orig.len() == CHUNK_SIZE,
                forall|a: int| 0 <= a < CHUNK_SIZE ==> word_fits(#[trigger] rows@[a]),
                forall|a: int, b: int|
                    #[trigger] live(rows@, i as int, j as int, a, b) ==> bit(orig[a], b as u32)
                        && !covered.contains((a, b)),
                forall|a: int, b: int|
                    0 <= a < CHUNK_SIZE && 0 <= b < CHUNK_SIZE && bit(orig[a], b as u32) && !live(
                        rows@,
                        i as int,
                        j as int,
                        a,
                        b,
                    ) ==> #[trigger] covered.contains((a, b)),
                rects_inv(orig, rects@, covered),
            decreases CHUNK_SIZE - j,
        {
            let row = rows[i];
            let t = (row >> j).trailing_zeros();
            proof {
                axiom_u32_trailing_zeros(row >> j);
                assert forall|b: u32| j <= b < j + t && b < 32 implies !bit(row, b) by {
                    lemma_shift_bit(row, j, (b - j) as u32);
                    assert(((row >> j) >> ((b - j) as u32)) & 1u32 == 0u32);
                }
                assert forall|b: u32| 15 <= b < 32 implies !bit(row, b) by {
                    lemma_high_bits_clear(row, b);
                }
            }
            if t >= n as u32 - j {
                proof {
                    assert forall|a: int, b: int| #[trigger] live(rows@, i as int, CHUNK_SIZE as int, a, b)
                        == live(rows@, i as int, j as int, a, b) by {
                        if a == i && j <= b < CHUNK_SIZE {
                            assert(!bit(row, b as u32));
                        }
                    }
                }
                j = n as u32;
            } else {
            let j2 = j + t;
            proof {
                lemma_shift_bit(row, j, t);
            }
            let h = (row >> j2).trailing_ones();
            proof {
                axiom_u32_trailing_ones(row >> j2);
                if h > 15 - j2 {
                    let q = (15 - j2) as u32;
                    assert(((row >> j2) >> q) & 1u32 == 1u32);
                    assert(((row >> j2) >> q) & 1u32 == 0u32) by (bit_vector)
                        requires
                            row < 0x8000u32,
                            j2 + q == 15,
                    ;
                }
                assert forall|b: u32| j2 <= b < j2 + h implies #[trigger] bit(row, b) by {
                    let q = (b - j2) as u32;
                    lemma_shift_bit(row, j2, q);
                    assert(((row >> j2) >> q) & 1u32 == 1u32);
                }
                assert(h >= 1) by {
                    lemma_shift_bit(row, j2, 0);
                }
            }
            assert(1u32 << h >= 1u32) by (bit_vector)
                requires
                    h <= 15,
            ;
            let h_mask: u32 = (1u32 << h) - 1;
            let mask = h_mask << j2;
            let ghost pre = rows@;
            let mut w: usize = 1;
            while i + w < n
                invariant
                    n == CHUNK_SIZE,
                    i < CHUNK_SIZE,
                    1 <= w,
                    i + w <= CHUNK_SIZE,
                    j2 < 15,
                    1 <= h <= 15,
                    j2 + h <= 15,
                    h_mask == run_mask(h),
                    mask == h_mask << j2,
                    rows@.len() == CHUNK_SIZE,
                    pre.len() == CHUNK_SIZE,
                    forall|a: int| 0 <= a < CHUNK_SIZE ==> word_fits(#[trigger] rows@[a]),
                    forall|a: int, b: u32|
                        0 <= a < CHUNK_SIZE && b < 32 ==> #[trigger] bit(rows@[a], b) == (bit(pre[a], b)
                            && !(i < a < i + w && j2 <= b < j2 + h)),
                    forall|a: int, b: u32|
                        i < a < i + w && j2 <= b < j2 + h ==> #[trigger] bit(pre[a], b),
                decreases CHUNK_SIZE - w,
            {
                let next = (rows[i + w] >> j2) & h_mask;
                if next != h_mask {
                    break;
                }
                let cur = rows[i + w];
                let cleared = cur & !mask;
                proof {
                    assert forall|b: u32| b < 32 implies #[trigger] bit(cleared, b) == (bit(cur, b) && !(j2 <= b < j2 + h)) by {
                        lemma_span(cur, j2, h, b);
                    }
                    assert forall|b: u32| j2 <= b < j2 + h implies #[trigger] bit(pre[i + w], b) by {
                        lemma_span(cur, j2, h, b);
                    }
                    lemma_span(cur, j2, h, 0);
                }
                rows.set(i + w, cleared);
                w += 1;
            }
            let r = Rect { row: i as u32, col: j2, width: w as u32, height: h };
            let ghost old_rects = rects@;
            let ghost g = grid(i as int, j2 as int, w as int, h as int);
            proof {
                lemma_grid_len(i as int, j2 as int, w as int, h as int);
                // the new rectangle takes live cells only
                assert forall|a: int, b: int| #[trigger] g.contains((a, b)) implies live(pre, i as int, j as int, a, b) by {
                    if a == i {
                        assert(bit(row, b as u32));
                    } else {
                        assert(bit(pre[a], b as u32));
                    }
                }
                assert(g.disjoint(covered));
                vstd::set_lib::lemma_set_disjoint_lens(covered, g);
                // the cells that stop being live are those of the rectangle
                assert forall|a: int, b: int| #[trigger] live(rows@, i as int, (j2 + h) as int, a, b)
                    == (live(pre, i as int, j as int, a, b) && !g.contains((a, b))) by {
                    if 0 <= a < CHUNK_SIZE && 0 <= b < CHUNK_SIZE {
                        assert(bit(rows@[a], b as u32) == (bit(pre[a], b as u32) && !(i < a < i + w && j2 <= b < j2 + h)));
                        if a == i && j <= b < j2 {
                            assert(!bit(row, b as u32));
                        }
                    }
                }
            }
            rects.push(r);
            proof {
                covered = covered + g;
                let rs = rects@;
                assert(rs.drop_last() =~= old_rects);
                assert(area_sum(rs) == area_sum(old_rects) + w * h);
                assert forall|t: int, a: int, b: int| 0 <= t < rs.len() && #[trigger] rect_has(rs[t], a, b) implies covered.contains((a, b)) by {
                    if t == rs.len() - 1 {
                        assert(g.contains((a, b)));
                    } else {
                        assert(rect_has(old_rects[t], a, b));
                    }
                }
                assert forall|p: (int, int)| #[trigger] covered.contains(p) implies exists|t: int|
                    0 <= t < rs.len() && #[trigger] rect_has(rs[t], p.0, p.1) by {
                    if g.contains(p) {
                        assert(rect_has(rs[rs.len() - 1], p.0, p.1));
                    } else {
                        let t = choose|t: int| 0 <= t < old_rects.len() && #[trigger] rect_has(old_rects[t], p.0, p.1);
                        assert(rect_has(rs[t], p.0, p.1));
                    }
                }
                assert forall|t1: int, t2: int, a: int, b: int|
                    0 <= t1 < rs.len() && 0 <= t2 < rs.len() && t1 != t2 && #[trigger] rect_has(rs[t1], a, b)
                        implies !#[trigger] rect_has(rs[t2], a, b) by {
                    if t1 == rs.len() - 1 {
                        assert(g.contains((a, b)));
                        if rect_has(rs[t2], a, b) {
                            assert(rect_has(old_rects[t2], a, b));
                        }
                    } else if t2 == rs.len() - 1 {
                        assert(rect_has(old_rects[t1], a, b));
                        if rect_has(rs[t2], a, b) {
                            assert(g.contains((a, b)));
                        }
                    } else {
                        assert(rect_has(old_rects[t1], a, b));
                    }
                }
                assert forall|t: int| 0 <= t < rs.len() implies #[trigger] rs[t].width >= 1 && rs[t].height >= 1
                    && rs[t].row + rs[t].width <= CHUNK_SIZE && rs[t].col + rs[t].height <= CHUNK_SIZE by {
                    if t < rs.len() - 1 {
                        assert(rs[t] == old_rects[t]);
                    }
                }
                assert forall|a: int, b: int|
                    0 <= a < CHUNK_SIZE && 0 <= b < CHUNK_SIZE && bit(orig[a], b as u32) && !live(rows@, i as int, (j2 + h) as int, a, b)
                        implies #[trigger] covered.contains((a, b)) by {
                    assert(live(rows@, i as int, (j2 + h) as int, a, b) == (live(pre, i as int, j as int, a, b) && !g.contains((a, b))));
                }
                assert forall|a: int, b: int| #[trigger] live(rows@, i as int, (j2 + h) as int, a, b)
                    implies bit(orig[a], b as u32) && !covered.contains((a, b)) by {
                    assert(live(pre, i as int, j as int, a, b));
                }
            }
            j = j2 + h;
            }
        }
        proof {
            assert forall|a: int, b: int| #[trigger] live(rows@, (i + 1) as int, 0, a, b)
                == live(rows@, i as int, j as int, a, b) by {
            }
        }
        i += 1;
    }
    proof {
        let rs = rects@;
        assert forall|a: int, b: int|
            0 <= a < CHUNK_SIZE && 0 <= b < CHUNK_SIZE && #[trigger] bit(orig[a], b as u32) implies exists|t: int|
                0 <= t < rs.len() && #[trigger] rect_has(rs[t], a, b) by {
            assert(!live(rows@, CHUNK_SIZE as int, 0, a, b));
            assert(covered.contains((a, b)));
        }
        assert forall|t: int, a: int, b: int| 0 <= t < rs.len() && #[trigger] rect_has(rs[t], a, b) implies bit(
            orig[a],
            b as u32,
        ) by {
            assert(covered.contains((a, b)));
        }
        assert(covered =~= plane_set(orig)) by {
            assert forall|p: (int, int)| plane_set(orig).contains(p) implies covered.contains(p) by {
                assert(!live(rows@, CHUNK_SIZE as int, 0, p.0, p.1));
            }
        }
        lemma_area_at_least_count(rs);
        lemma_grid_len(0, 0, CHUNK_SIZE as int, CHUNK_SIZE as int);
        assert(plane_set(orig).subset_of(grid(0, 0, CHUNK_SIZE as int, CHUNK_SIZE as int)));
        vstd::set_lib::lemma_len_subset(plane_set(orig), grid(0, 0, CHUNK_SIZE as int, CHUNK_SIZE as int));
    }
    rects
}

proof fn lemma_area_at_least_count(rs: Seq<Rect>)
    requires
        forall|t: int| 0 <= t < rs.len() ==> #[trigger] rs[t].width >= 1 && rs[t].height >= 1,
    ensures
        area_sum(rs) >= rs.len(),
    decreases rs.len(),
{
    if rs.len() > 0 {
        let last = rs.last();
        assert(last == rs[rs.len() - 1]);
        assert forall|t: int| 0 <= t < rs.drop_last().len() implies #[trigger] rs.drop_last()[t].width >= 1
            && rs.drop_last()[t].height >= 1 by {
            assert(rs.drop_last()[t] == rs[t]);
        }
        lemma_area_at_least_count(rs.drop_last());
        assert(last.width * last.height >= 1) by (nonlinear_arith)
            requires
                last.width >= 1,
                last.height >= 1,
        ;
    }
}

/// Index of row `i` of plane `k` in a flat array of planes.
pub open spec fn plane_row(k: int, i: int) -> int {
    k * CHUNK_SIZE + i
}

/// Bit `j` of row `i` of plane `k`.
pub open spec fn plane_bit(planes: Seq<u32>, k: int, i: int, j: int) -> bool {
    bit(planes[plane_row(k, i)], j as u32)
}

pub open spec fn planes_fit(planes: Seq<u32>) -> bool {
    &&& planes.len() == CHUNK_SIZE * CHUNK_SIZE
    &&& forall|l: int| 0 <= l < CHUNK_SIZE * CHUNK_SIZE ==> word_fits(#[trigger] planes[l])
}

proof fn lemma_plane_row_bounds(k: int, i: int)
    requires
        0 <= k < CHUNK_SIZE,
        0 <= i < CHUNK_SIZE,
    ensures
        0 <= plane_row(k, i) < CHUNK_SIZE * CHUNK_SIZE,
        forall|k2: int, i2: int|
            0 <= k2 < CHUNK_SIZE && 0 <= i2 < CHUNK_SIZE ==> (#[trigger] plane_row(k2, i2) == plane_row(k, i)
                <==> (k2 == k && i2 == i)),
{
}

proof fn lemma_clear_lowest(a: u32, c: u32)
    requires
        a != 0,
        c < 32,
        (a >> c) & 1u32 == 1u32,
        a << ((32 - c) as u32) == 0,
    ensures
        a & ((a - 1) as u32) < a,
        forall|b: u32| b < 32 ==> #[trigger] bit(a & ((a - 1) as u32), b) == (bit(a, b) && b != c),
{
    assert(a & ((a - 1) as u32) < a) by (bit_vector)
        requires
            a != 0,
    ;
    assert forall|b: u32| b < 32 implies #[trigger] bit(a & ((a - 1) as u32), b) == (bit(a, b) && b != c) by {
        assert(((a & ((a - 1) as u32)) >> b) & 1u32 == 1u32 <==> ((a >> b) & 1u32 == 1u32 && b != c))
            by (bit_vector)
            requires
                a != 0,
                c < 32,
                b < 32,
                (a >> c) & 1u32 == 1u32,
                a << ((32 - c) as u32) == 0,
        ;
    }
}

/// Records the visible faces of line `(i, j)`: for each set bit `k` of
/// `axis`, sets bit `j` of row `i` of plane `k`.
pub fn push_face_in_plane(axis: u32, i: usize, j: usize, planes: &mut Vec<u32>)
    requires
        word_fits(axis),
        i < CHUNK_SIZE,
        j < CHUNK_SIZE,
        planes_fit(old(planes)@),
    ensures
        planes_fit(final(planes)@),
        forall|k: int, r: int, c: int|
            0 <= k < CHUNK_SIZE && 0 <= r < CHUNK_SIZE && 0 <= c < CHUNK_SIZE ==> #[trigger] plane_bit(
                final(planes)@,
                k,
                r,
                c,
            ) == (plane_bit(old(planes)@, k, r, c) || (r == i && c == j && bit(axis, k as u32))),
{
    let ghost start = planes@;
    let mut rest = axis;
    proof {
        assert forall|b: u32| 15 <= b < 32 implies !bit(axis, b) by {
            lemma_high_bits_clear(axis, b);
        }
    }
    while rest != 0
        invariant
            i < CHUNK_SIZE,
            j < CHUNK_SIZE,
            word_fits(axis),
            planes_fit(planes@),
            forall|b: u32| b < 32 && #[trigger] bit(rest, b) ==> bit(axis, b),
            forall|b: u32| 15 <= b < 32 ==> !#[trigger] bit(axis, b),
            forall|k: int, r: int, c: int|
                0 <= k < CHUNK_SIZE && 0 <= r < CHUNK_SIZE && 0 <= c < CHUNK_SIZE ==> #[trigger] plane_bit(
                    planes@,
                    k,
                    r,
                    c,
                ) == (plane_bit(start, k, r, c) || (r == i && c == j && bit(axis, k as u32) && !bit(
                    rest,
                    k as u32,
                ))),
        decreases rest,
    {
        let count = rest.trailing_zeros();
        proof {
            axiom_u32_trailing_zeros(rest);
            lemma_clear_lowest(rest, count);
            assert(bit(rest, count));
            assert(bit(axis, count));
        }
        let next = rest & (rest - 1);
        let l = count as usize * CHUNK_SIZE + i;
        proof {
            lemma_plane_row_bounds(count as int, i as int);
        }
        let word = planes[l];
        let ghost before = planes@;
        let ghost rest_before = rest;
        let updated = word | (1u32 << j as u32);
        proof {
            assert forall|b: u32| b < 15 implies #[trigger] bit(updated, b) == (bit(word, b) || b == j) by {
                assert(((word | (1u32 << j as u32)) >> b) & 1u32 == 1u32 <==> ((word >> b) & 1u32 == 1u32
                    || b == j as u32)) by (bit_vector)
                    requires
                        b < 15,
                        j < 15,
                ;
            }
            assert(word | (1u32 << j as u32) < 0x8000u32) by (bit_vector)
                requires
                    word < 0x8000u32,
                    j < 15,
            ;
        }
        planes.set(l, updated);
        rest = next;
        proof {
            assert forall|k: int, r: int, c: int|
                0 <= k < CHUNK_SIZE && 0 <= r < CHUNK_SIZE && 0 <= c < CHUNK_SIZE implies #[trigger] plane_bit(
                    planes@,
                    k,
                    r,
                    c,
                ) == (plane_bit(start, k, r, c) || (r == i && c == j && bit(axis, k as u32) && !bit(
                    rest,
                    k as u32,
                ))) by {
                lemma_plane_row_bounds(k, r);
                lemma_plane_row_bounds(count as int, i as int);
                assert(plane_bit(before, k, r, c) == (plane_bit(start, k, r, c) || (r == i && c == j && bit(
                    axis,
                    k as u32,
                ) && !bit(rest_before, k as u32))));
                assert(bit(rest, k as u32) == (bit(rest_before, k as u32) && k != count));
                if k == count && r == i {
                    assert(bit(updated, c as u32) == (bit(word, c as u32) || c == j));
                }
            }
        }
    }
    proof {
        assert forall|b: u32| !bit(0u32, b) by {
            assert((0u32 >> b) & 1u32 == 0u32) by (bit_vector);
        }
    }
}

/// Planes of a direction from its mask words: bit `j` of row `i` of plane
/// `k` is bit `k` of the word of line `(i, j)`.
pub fn planes_of(words: &Vec<u32>) -> (planes: Vec<u32>)
    requires
        words@.len() == CHUNK_SIZE * CHUNK_SIZE,
        forall|l: int| 0 <= l < CHUNK_SIZE * CHUNK_SIZE ==> word_fits(#[trigger] words@[l]),
    ensures
        planes_fit(planes@),
        forall|k: int, i: int, j: int|
            0 <= k < CHUNK_SIZE && 0 <= i < CHUNK_SIZE && 0 <= j < CHUNK_SIZE ==> #[trigger] plane_bit(
                planes@,
                k,
                i,
                j,
            ) == bit(words@[line_index(i, j)], k as u32),
{
    let mut planes: Vec<u32> = vec![0u32; CHUNK_SIZE * CHUNK_SIZE];
    proof {
        assert forall|b: u32| !bit(0u32, b) by {
            assert((0u32 >> b) & 1u32 == 0u32) by (bit_vector);
        }
    }
    let mut i: usize = 0;
    while i < CHUNK_SIZE
        invariant
            i <= CHUNK_SIZE,
            words@.len() == CHUNK_SIZE * CHUNK_SIZE,
            forall|l: int| 0 <= l < CHUNK_SIZE * CHUNK_SIZE ==> word_fits(#[trigger] words@[l]),
            planes_fit(planes@),
            forall|k: int, r: int, c: int|
                0 <= k < CHUNK_SIZE && 0 <= r < CHUNK_SIZE && 0 <= c < CHUNK_SIZE ==> #[trigger] plane_bit(
                    planes@,
                    k,
                    r,
                    c,
                ) == (r < i && bit(words@[line_index(r, c)], k as u32)),
        decreases CHUNK_SIZE - i,
    {
        let mut j: usize = 0;
        while j < CHUNK_SIZE
            invariant
                i < CHUNK_SIZE,
                j <= CHUNK_SIZE,
                words@.len() == CHUNK_SIZE * CHUNK_SIZE,
                forall|l: int| 0 <= l < CHUNK_SIZE * CHUNK_SIZE ==> word_fits(#[trigger] words@[l]),
                planes_fit(planes@),
                forall|k: int, r: int, c: int|
                    0 <= k < CHUNK_SIZE && 0 <= r < CHUNK_SIZE && 0 <= c < CHUNK_SIZE ==> #[trigger] plane_bit(
                        planes@,
                        k,
                        r,
                        c,
                    ) == ((r < i || (r == i && c < j)) && bit(words@[line_index(r, c)], k as u32)),
            decreases CHUNK_SIZE - j,
        {
            proof {
                crate::chunk::lemma_line_index_bounds(i as int, j as int);
            }
            push_face_in_plane(words[i + j * CHUNK_SIZE], i, j, &mut planes);
            j += 1;
        }
        i += 1;
    }
    planes
}

/// The new faces of direction `d` cover exactly the set bits of `planes`,
/// each once, and are shaded from `chunk`.
pub open spec fn faces_cover_planes(nf: Seq<Face>, planes: Seq<u32>, d: Direction, chunk: Chunk) -> bool {
    &&& forall|t: int| 0 <= t < nf.len() ==> (#[trigger] nf[t]).direction == d && face_shaded(nf[t], chunk)
    &&& forall|t: int, d2: Direction, k: int, i: int, j: int|
        0 <= t < nf.len() && #[trigger] face_covers(nf[t], d2, k, i, j) ==> d2 == d && in_plane(k, i, j)
            && plane_bit(planes, k, i, j)
    &&& forall|k: int, i: int, j: int|
        in_plane(k, i, j) && #[trigger] plane_bit(planes, k, i, j) ==> exists|t: int|
            0 <= t < nf.len() && #[trigger] face_covers(nf[t], d, k, i, j)
    &&& forall|t1: int, t2: int, d2: Direction, k: int, i: int, j: int|
        0 <= t1 < nf.len() && 0 <= t2 < nf.len() && t1 != t2 && #[trigger] face_covers(nf[t1], d2, k, i, j)
            ==> !#[trigger] face_covers(nf[t2], d2, k, i, j)
}

/// Runs the greedy merge on every plane of one direction and appends a quad
/// per rectangle. Returns the faces appended.
fn push_vertices(
    vertices: &mut Vec<u32>,
    indices: &mut Vec<u32>,
    planes: &Vec<u32>,
    direction: Direction,
    chunk: &Chunk,
    Ghost(faces): Ghost<Seq<Face>>,
) -> (nf: Ghost<Seq<Face>>)
    requires
        planes_fit(planes@),
        chunk.wf(),
        mesh_matches(faces, old(vertices)@, old(indices)@),
        faces.len() <= 5 * CHUNK_SIZE * CHUNK_SIZE * CHUNK_SIZE,
    ensures
        mesh_matches(faces + nf@, final(vertices)@, final(indices)@),
        nf@.len() <= CHUNK_SIZE * CHUNK_SIZE * CHUNK_SIZE,
        faces_cover_planes(nf@, planes@, direction, *chunk),
{
    let ghost mut nf: Seq<Face> = Seq::empty();
    let mut k: usize = 0;
    while k < CHUNK_SIZE
        invariant
            k <= CHUNK_SIZE,
            planes_fit(planes@),
            chunk.wf(),
            faces.len() <= 5 * CHUNK_SIZE * CHUNK_SIZE * CHUNK_SIZE,
            mesh_matches(faces + nf, vertices@, indices@),
            nf.len() <= k * (CHUNK_SIZE * CHUNK_SIZE),
            forall|t: int| 0 <= t < nf.len() ==> (#[trigger] nf[t]).direction == direction && face_shaded(nf[t], *chunk)
                && nf[t].depth < k,
            forall|t: int, d2: Direction, k2: int, i: int, j: int|
                0 <= t < nf.len() && #[trigger] face_covers(nf[t], d2, k2, i, j) ==> d2 == direction && in_plane(k2, i, j)
                    && plane_bit(planes@, k2, i, j),
            forall|k2: int, i: int, j: int|
                in_plane(k2, i, j) && k2 < k && #[trigger] plane_bit(planes@, k2, i, j) ==> exists|t: int|
                    0 <= t < nf.len() && #[trigger] face_covers(nf[t], direction, k2, i, j),
            forall|t1: int, t2: int, d2: Direction, k2: int, i: int, j: int|
                0 <= t1 < nf.len() && 0 <= t2 < nf.len() && t1 != t2 && #[trigger] face_covers(nf[t1], d2, k2, i, j)
                    ==> !#[trigger] face_covers(nf[t2], d2, k2, i, j),
        decreases CHUNK_SIZE - k,
    {
        let mut rows: Vec<u32> = Vec::new();
        let mut r: usize = 0;
        while r < CHUNK_SIZE
            invariant
                k < CHUNK_SIZE,
                r <= CHUNK_SIZE,
                planes_fit(planes@),
                rows@.len() == r,
                forall|a: int| 0 <= a < r ==> #[trigger] rows@[a] == planes@[plane_row(k as int, a)],
            decreases CHUNK_SIZE - r,
        {
            proof {
                lemma_plane_row_bounds(k as int, r as int);
            }
            rows.push(planes[k * CHUNK_SIZE + r]);
            r += 1;
        }
        proof {
            assert forall|a: int| 0 <= a < CHUNK_SIZE implies word_fits(#[trigger] rows@[a]) by {
                lemma_plane_row_bounds(k as int, a);
            }
        }
        let ghost plane = rows@;
        let rects = greedy_plane(rows);
        let ghost base = nf;
        let mut t: usize = 0;
        while t < rects.len()
            invariant
                k < CHUNK_SIZE,
                t <= rects@.len(),
                rects@.len() <= CHUNK_SIZE * CHUNK_SIZE,
                chunk.wf(),
                rects_partition(plane, rects@),
                faces.len() <= 5 * CHUNK_SIZE * CHUNK_SIZE * CHUNK_SIZE,
                base.len() <= k * (CHUNK_SIZE * CHUNK_SIZE),
                nf.len() == base.len() + t,
                forall|t2: int| 0 <= t2 < base.len() ==> #[trigger] nf[t2] == base[t2],
                forall|t2: int| 0 <= t2 < t ==> #[trigger] nf[base.len() + t2] == rect_face(*chunk, direction, k as u32, rects@[t2]),
                mesh_matches(faces + nf, vertices@, indices@),
            decreases rects@.len() - t,
        {
            let rect = rects[t];
            let f = shade_rect(chunk, direction, k as u32, rect);
            proof {
                assert((k + 1) * (CHUNK_SIZE * CHUNK_SIZE) <= CHUNK_SIZE * CHUNK_SIZE * CHUNK_SIZE) by (nonlinear_arith)
                    requires
                        k < CHUNK_SIZE,
                ;
                assert(base.len() + t < (k + 1) * (CHUNK_SIZE * CHUNK_SIZE)) by (nonlinear_arith)
                    requires
                        base.len() <= k * (CHUNK_SIZE * CHUNK_SIZE),
                        t < CHUNK_SIZE * CHUNK_SIZE,
                ;
                lemma_mesh_push(faces + nf, vertices@, indices@, f);
            }
            push_face(vertices, indices, f);
            proof {
                assert((faces + nf).push(f) =~= faces + nf.push(f));
                nf = nf.push(f);
            }
            t += 1;
        }
        proof {
            let kk = k as int;
            assert(base.len() + rects@.len() <= (k + 1) * (CHUNK_SIZE * CHUNK_SIZE)) by (nonlinear_arith)
                requires
                    base.len() <= k * (CHUNK_SIZE * CHUNK_SIZE),
                    rects@.len() <= CHUNK_SIZE * CHUNK_SIZE,
            ;
            assert forall|t2: int| 0 <= t2 < nf.len() implies (#[trigger] nf[t2]).direction == direction && face_shaded(nf[t2], *chunk)
                && nf[t2].depth < k + 1 by {
                if t2 >= base.len() {
                    assert(nf[base.len() + (t2 - base.len())] == rect_face(*chunk, direction, k as u32, rects@[t2 - base.len()]));
                }
            }
            assert forall|t2: int, d2: Direction, k2: int, i: int, j: int|
                0 <= t2 < nf.len() && #[trigger] face_covers(nf[t2], d2, k2, i, j) implies d2 == direction && in_plane(k2, i, j)
                    && plane_bit(planes@, k2, i, j) by {
                if t2 >= base.len() {
                    let q = t2 - base.len();
                    assert(nf[base.len() + q] == rect_face(*chunk, direction, k as u32, rects@[q]));
                    assert(rect_has(rects@[q], i, j));
                    lemma_plane_row_bounds(kk, i);
                    assert(bit(plane[i], j as u32));
                } else {
                    assert(face_covers(base[t2], d2, k2, i, j));
                }
            }
            assert forall|k2: int, i: int, j: int|
                in_plane(k2, i, j) && k2 < k + 1 && #[trigger] plane_bit(planes@, k2, i, j) implies exists|t2: int|
                    0 <= t2 < nf.len() && #[trigger] face_covers(nf[t2], direction, k2, i, j) by {
                if k2 == kk {
                    lemma_plane_row_bounds(kk, i);
                    assert(bit(plane[i], j as u32));
                    let q = choose|q: int| 0 <= q < rects@.len() && #[trigger] rect_has(rects@[q], i, j);
                    assert(nf[base.len() + q] == rect_face(*chunk, direction, k as u32, rects@[q]));
                    assert(face_covers(nf[base.len() + q], direction, k2, i, j));
                } else {
                    let t2 = choose|t2: int| 0 <= t2 < base.len() && #[trigger] face_covers(base[t2], direction, k2, i, j);
                    assert(nf[t2] == base[t2]);
                }
            }
            assert forall|t1: int, t2: int, d2: Direction, k2: int, i: int, j: int|
                0 <= t1 < nf.len() && 0 <= t2 < nf.len() && t1 != t2 && #[trigger] face_covers(nf[t1], d2, k2, i, j)
                    implies !#[trigger] face_covers(nf[t2], d2, k2, i, j) by {
                if t1 >= base.len() {
                    let q1 = t1 - base.len();
                    assert(nf[base.len() + q1] == rect_face(*chunk, direction, k as u32, rects@[q1]));
                    if t2 >= base.len() {
                        let q2 = t2 - base.len();
                        assert(nf[base.len() + q2] == rect_face(*chunk, direction, k as u32, rects@[q2]));
                        assert(rect_has(rects@[q1], i, j));
                        assert(!rect_has(rects@[q2], i, j));
                    } else {
                        assert(nf[t2] == base[t2]);
                        assert(base[t2].depth < k);
                        assert(k2 == k);
                    }
                } else {
                    assert(nf[t1] == base[t1]);
                    assert(base[t1].depth < k);
                    if t2 >= base.len() {
                        let q2 = t2 - base.len();
                        assert(nf[base.len() + q2] == rect_face(*chunk, direction, k as u32, rects@[q2]));
                        assert(k2 < k);
                    } else {
                        assert(nf[t2] == base[t2]);
                        assert(face_covers(base[t1], d2, k2, i, j));
                        assert(!face_covers(base[t2], d2, k2, i, j));
                    }
                }
            }
        }
        k += 1;
    }
    Ghost(nf)
}

/// Adding the faces of one more direction, which cover exactly the visible
/// faces of that direction, extends the set of covered directions.
pub(crate) proof fn lemma_add_direction(
    faces: Seq<Face>,
    nf: Seq<Face>,
    planes: Seq<u32>,
    d: Direction,
    chunk: Chunk,
    sides: Sides,
    done: Set<Direction>,
)
    requires
        faces_cover_dirs(faces, chunk, sides, done),
        !done.contains(d),
        faces_cover_planes(nf, planes, d, chunk),
        forall|k: int, i: int, j: int|
            in_plane(k, i, j) ==> #[trigger] plane_bit(planes, k, i, j) == plane_face_visible(chunk, sides, d, k, i, j),
    ensures
        faces_cover_dirs(faces + nf, chunk, sides, done.insert(d)),
{
    let all = faces + nf;
    let n = faces.len() as int;
    let nd = done.insert(d);
    assert forall|t: int| 0 <= t < all.len() implies nd.contains((#[trigger] all[t]).direction) && face_shaded(all[t], chunk) by {
        if t >= n {
            assert(all[t] == nf[t - n]);
        } else {
            assert(all[t] == faces[t]);
        }
    }
    assert forall|t: int, d2: Direction, k: int, i: int, j: int|
        0 <= t < all.len() && #[trigger] face_covers(all[t], d2, k, i, j) implies in_plane(k, i, j)
            && plane_face_visible(chunk, sides, d2, k, i, j) by {
        if t >= n {
            assert(all[t] == nf[t - n]);
            assert(face_covers(nf[t - n], d2, k, i, j));
        } else {
            assert(all[t] == faces[t]);
            assert(face_covers(faces[t], d2, k, i, j));
        }
    }
    assert forall|d2: Direction, k: int, i: int, j: int|
        nd.contains(d2) && in_plane(k, i, j) && #[trigger] plane_face_visible(chunk, sides, d2, k, i, j)
            implies exists|t: int| 0 <= t < all.len() && #[trigger] face_covers(all[t], d2, k, i, j) by {
        if d2 == d {
            assert(plane_bit(planes, k, i, j));
            let q = choose|q: int| 0 <= q < nf.len() && #[trigger] face_covers(nf[q], d, k, i, j);
            assert(all[n + q] == nf[q]);
            assert(face_covers(all[n + q], d2, k, i, j));
        } else {
            let q = choose|q: int| 0 <= q < faces.len() && #[trigger] face_covers(faces[q], d2, k, i, j);
            assert(all[q] == faces[q]);
        }
    }
    assert forall|t1: int, t2: int, d2: Direction, k: int, i: int, j: int|
        0 <= t1 < all.len() && 0 <= t2 < all.len() && t1 != t2 && #[trigger] face_covers(all[t1], d2, k, i, j)
            implies !#[trigger] face_covers(all[t2], d2, k, i, j) by {
        if t1 >= n {
            assert(all[t1] == nf[t1 - n]);
            assert(face_covers(nf[t1 - n], d2, k, i, j));
            if t2 >= n {
                assert(all[t2] == nf[t2 - n]);
                assert(!face_covers(nf[t2 - n], d2, k, i, j));
            } else {
                assert(all[t2] == faces[t2]);
                assert(done.contains(faces[t2].direction));
            }
        } else {
            assert(all[t1] == faces[t1]);
            assert(face_covers(faces[t1], d2, k, i, j));
            assert(done.contains(faces[t1].direction));
            if t2 >= n {
                assert(all[t2] == nf[t2 - n]);
            } else {
                assert(all[t2] == faces[t2]);
                assert(!face_covers(faces[t2], d2, k, i, j));
            }
        }
    }
}

/// A chunk mesh built by merging visible faces into rectangles.
pub struct GreedyMesh {
    pub vertices: Vec<u32>,
    pub indices: Vec<u32>,
    /// The face rectangles that the buffers encode, in order.
    pub faces: Ghost<Seq<Face>>,
}

impl GreedyMesh {
    /// Meshes `chunk` given its six neighbours (`None`: not loaded, seen as empty).
    pub fn new(
        chunk: &Chunk,
        left: Option<&Chunk>,
        right: Option<&Chunk>,
        bottom: Option<&Chunk>,
        top: Option<&Chunk>,
        back: Option<&Chunk>,
        front: Option<&Chunk>,
    ) -> (r: Self)
        requires
            chunk.wf(),
            (Sides { left, right, bottom, top, back, front }).wf(),
        ensures
            mesh_matches(r.faces@, r.vertices@, r.indices@),
            faces_cover_visible(r.faces@, *chunk, Sides { left, right, bottom, top, back, front }),
    {
        let sides = Sides { left, right, bottom, top, back, front };
        let mask = ChunkMask::from_chunk(chunk, &sides);
        let mut vertices: Vec<u32> = Vec::new();
        let mut indices: Vec<u32> = Vec::new();
        let ghost mut faces: Seq<Face> = Seq::empty();
        let ghost mut done: Set<Direction> = Set::empty();
        proof {
            assert(mesh_matches(faces, vertices@, indices@));
            assert(faces_cover_dirs(faces, *chunk, sides, done));
        }
        let order = [
            Direction::Left,
            Direction::Right,
            Direction::Down,
            Direction::Up,
            Direction::Back,
            Direction::Front,
        ];
        let mut n: usize = 0;
        while n < 6
            invariant
                n <= 6,
                order@ == seq![
                    Direction::Left,
                    Direction::Right,
                    Direction::Down,
                    Direction::Up,
                    Direction::Back,
                    Direction::Front,
                ],
                chunk.wf(),
                mask.wf(),
                forall|d: Direction, k: int, i: int, j: int|
                    in_plane(k, i, j) ==> #[trigger] mask.face(d, k, i, j) == plane_face_visible(*chunk, sides, d, k, i, j),
                mesh_matches(faces, vertices@, indices@),
                faces.len() <= n * (CHUNK_SIZE * CHUNK_SIZE * CHUNK_SIZE),
                faces_cover_dirs(faces, *chunk, sides, done),
                forall|d: Direction| #[trigger] done.contains(d) <==> exists|m: int| 0 <= m < n && order@[m] == d,
            decreases 6 - n,
        {
            let d = order[n];
            let words = match d {
                Direction::Left => &mask.left,
                Direction::Right => &mask.right,
                Direction::Down => &mask.bottom,
                Direction::Up => &mask.top,
                Direction::Back => &mask.back,
                Direction::Front => &mask.front,
            };
            proof {
                assert(words@ == mask.words(d));
            }
            let planes = planes_of(words);
            proof {
                assert(n * (CHUNK_SIZE * CHUNK_SIZE * CHUNK_SIZE) <= 5 * CHUNK_SIZE * CHUNK_SIZE * CHUNK_SIZE) by (nonlinear_arith)
                    requires
                        n < 6,
                ;
            }
            let nf = push_vertices(&mut vertices, &mut indices, &planes, d, chunk, Ghost(faces));
            proof {
                assert forall|k: int, i: int, j: int| in_plane(k, i, j) implies #[trigger] plane_bit(planes@, k, i, j)
                    == plane_face_visible(*chunk, sides, d, k, i, j) by {
                    assert(mask.face(d, k, i, j) == plane_face_visible(*chunk, sides, d, k, i, j));
                }
                assert(!done.contains(d)) by {
                    if done.contains(d) {
                        let m = choose|m: int| 0 <= m < n && order@[m] == d;
                        assert(order@[m] != order@[n as int]);
                    }
                }
                lemma_add_direction(faces, nf@, planes@, d, *chunk, sides, done);
                assert(faces.len() + nf@.len() <= (n + 1) * (CHUNK_SIZE * CHUNK_SIZE * CHUNK_SIZE)) by (nonlinear_arith)
                    requires
                        faces.len() <= n * (CHUNK_SIZE * CHUNK_SIZE * CHUNK_SIZE),
                        nf@.len() <= CHUNK_SIZE * CHUNK_SIZE * CHUNK_SIZE,
                ;
                faces = faces + nf@;
                done = done.insert(d);
                assert forall|d2: Direction| #[trigger] done.contains(d2) <==> exists|m: int| 0 <= m < n + 1 && order@[m] == d2 by {
                    if d2 == d {
                        assert(order@[n as int] == d2);
                    }
                }
            }
            n += 1;
        }
        proof {
            assert(done =~= Set::full()) by {
                assert forall|d: Direction| done.contains(d) by {
                    match d {
                        Direction::Left => assert(order@[0] == d),
                        Direction::Right => assert(order@[1] == d),
                        Direction::Down => assert(order@[2] == d),
                        Direction::Up => assert(order@[3] == d),
                        Direction::Back => assert(order@[4] == d),
                        Direction::Front => assert(order@[5] == d),
                    }
                }
            }
        }
        GreedyMesh { vertices, indices, faces: Ghost(faces) }
    }
}

} // verus!
