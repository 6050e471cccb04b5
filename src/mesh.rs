use vstd::prelude::*;

use crate::block::Block;
use crate::chunk::{in_chunk, Chunk, CHUNK_SIZE};
use crate::greedy::Rect;
use crate::quad::{quad_indices, quad_vertices, Direction, Quad};
use crate::visibility::{in_plane, plane_face_visible, Sides};

verus! {

/// An emitted rectangle of faces, in plane coordinates: faces toward
/// `direction` at depth `depth` along the normal, rows `row .. row + width`
/// and columns `col .. col + height` (see `plane_cell`), drawn with the
/// block id and health of its first cell.
#[derive(Debug, Clone, Copy, PartialEq, Eq, Structural)]
pub struct Face {
    pub direction: Direction,
    pub depth: u32,
    pub row: u32,
    pub col: u32,
    pub width: u32,
    pub height: u32,
    pub block: u32,
    pub health: u32,
}

/// Lowest cell of a face rectangle, as `(x, y, z)`.
pub open spec fn face_origin(f: Face) -> (u32, u32, u32) {
    match f.direction {
        Direction::Left | Direction::Right => (f.depth, f.row, f.col),
        Direction::Down | Direction::Up => (f.row, f.depth, f.col),
        Direction::Back | Direction::Front => (f.row, f.col, f.depth),
    }
}

/// Extent of a face rectangle in cells along x, y and z.
pub open spec fn face_extent(f: Face) -> (u32, u32, u32) {
    match f.direction {
        Direction::Left | Direction::Right => (1, f.width, f.height),
        Direction::Down | Direction::Up => (f.width, 1, f.height),
        Direction::Back | Direction::Front => (f.width, f.height, 1),
    }
}

pub open spec fn face_vertices(f: Face) -> Seq<u32> {
    quad_vertices(f.direction, face_origin(f), face_extent(f), f.block, f.health)
}

/// The face rectangle holds the unit face `(k, i, j)` toward `d`.
pub open spec fn face_covers(f: Face, d: Direction, k: int, i: int, j: int) -> bool {
    f.direction == d && f.depth == k && f.row <= i < f.row + f.width && f.col <= j < f.col
        + f.height
}

/// Vertex and index buffers are the encoding of `faces`, in order: four
/// vertices per face and the triangles `[0, 1, 2, 0, 2, 3]` after its first vertex.
pub open spec fn mesh_matches(faces: Seq<Face>, vertices: Seq<u32>, indices: Seq<u32>) -> bool {
    &&& vertices.len() == 4 * faces.len()
    &&& indices.len() == 6 * faces.len()
    &&& forall|t: int, e: int|
        0 <= t < faces.len() && 0 <= e < 4 ==> #[trigger] vertices[4 * t + e] == face_vertices(
            faces[t],
        )[e]
    &&& forall|t: int, e: int|
        0 <= t < faces.len() && 0 <= e < 6 ==> #[trigger] indices[6 * t + e] == quad_indices(
            (4 * t) as u32,
        )[e]
}

/// For the directions in `done`, the faces cover exactly the visible faces
/// of the chunk, each once; no face has another direction; every face is
/// shaded from its first cell.
pub open spec fn faces_cover_dirs(faces: Seq<Face>, chunk: Chunk, sides: Sides, done: Set<Direction>) -> bool {
    &&& forall|t: int|
        0 <= t < faces.len() ==> done.contains((#[trigger] faces[t]).direction) && face_shaded(
            faces[t],
            chunk,
        )
    &&& forall|t: int, d: Direction, k: int, i: int, j: int|
        0 <= t < faces.len() && #[trigger] face_covers(faces[t], d, k, i, j) ==> in_plane(k, i, j)
            && plane_face_visible(chunk, sides, d, k, i, j)
    &&& forall|d: Direction, k: int, i: int, j: int|
        done.contains(d) && in_plane(k, i, j) && #[trigger] plane_face_visible(chunk, sides, d, k, i, j)
            ==> exists|t: int| 0 <= t < faces.len() && #[trigger] face_covers(faces[t], d, k, i, j)
    &&& forall|t1: int, t2: int, d: Direction, k: int, i: int, j: int|
        0 <= t1 < faces.len() && 0 <= t2 < faces.len() && t1 != t2 && #[trigger] face_covers(
            faces[t1],
            d,
            k,
            i,
            j,
        ) ==> !#[trigger] face_covers(faces[t2], d, k, i, j)
}

/// The faces cover exactly the visible faces of the chunk in all six
/// directions, each exactly once, and carry the block and health of their
/// first cell.
pub open spec fn faces_cover_visible(faces: Seq<Face>, chunk: Chunk, sides: Sides) -> bool {
    faces_cover_dirs(faces, chunk, sides, Set::full())
}

/// The face carries the block id and health of its first cell.
pub open spec fn face_shaded(f: Face, chunk: Chunk) -> bool {
    let o = face_origin(f);
    &&& f.block == chunk.block_at(o.0 as int, o.1 as int, o.2 as int).id()
    &&& f.health == chunk.health_at(o.0 as int, o.1 as int, o.2 as int)
    &&& f.width >= 1
    &&& f.height >= 1
}

/// Appends the quad of one face rectangle to the buffers.
pub fn push_face(vertices: &mut Vec<u32>, indices: &mut Vec<u32>, f: Face)
    requires
        old(vertices)@.len() + 3 <= u32::MAX,
    ensures
        final(vertices)@ == old(vertices)@ + face_vertices(f),
        final(indices)@ == old(indices)@ + quad_indices(old(vertices)@.len() as u32),
{
    let pos = match f.direction {
        Direction::Left | Direction::Right => (f.depth, f.row, f.col),
        Direction::Down | Direction::Up => (f.row, f.depth, f.col),
        Direction::Back | Direction::Front => (f.row, f.col, f.depth),
    };
    let size = match f.direction {
        Direction::Left | Direction::Right => (1, f.width, f.height),
        Direction::Down | Direction::Up => (f.width, 1, f.height),
        Direction::Back | Direction::Front => (f.width, f.height, 1),
    };
    let mut quad = Quad::from_direction(f.direction, vertices.len(), pos, size, f.block, f.health);
    vertices.append(&mut quad.vertices);
    indices.append(&mut quad.indices);
}

/// Appending the encoding of one more face keeps the buffers in step with
/// the face list.
pub proof fn lemma_mesh_push(faces: Seq<Face>, v: Seq<u32>, ix: Seq<u32>, f: Face)
    requires
        mesh_matches(faces, v, ix),
        4 * faces.len() + 3 <= u32::MAX,
    ensures
        mesh_matches(
            faces.push(f),
            v + face_vertices(f),
            ix + quad_indices(v.len() as u32),
        ),
{
    let nf = faces.push(f);
    let nv = v + face_vertices(f);
    let ni = ix + quad_indices(v.len() as u32);
    let n = faces.len() as int;
    assert forall|t: int, e: int| 0 <= t < nf.len() && 0 <= e < 4 implies #[trigger] nv[4 * t + e]
        == face_vertices(nf[t])[e] by {
        if t < n {
            assert(nf[t] == faces[t]);
            assert(v[4 * t + e] == face_vertices(faces[t])[e]);
        } else {
            assert(t == n);
        }
    }
    assert forall|t: int, e: int| 0 <= t < nf.len() && 0 <= e < 6 implies #[trigger] ni[6 * t + e]
        == quad_indices((4 * t) as u32)[e] by {
        if t < n {
            assert(ix[6 * t + e] == quad_indices((4 * t) as u32)[e]);
        } else {
            assert(t == n);
        }
    }
}

/// The face of a plane rectangle, shaded from the chunk cell at its origin.
pub open spec fn rect_face(chunk: Chunk, d: Direction, k: u32, r: Rect) -> Face {
    let f = Face {
        direction: d,
        depth: k,
        row: r.row,
        col: r.col,
        width: r.width,
        height: r.height,
        block: 0,
        health: 0,
    };
    let o = face_origin(f);
    Face {
        block: chunk.block_at(o.0 as int, o.1 as int, o.2 as int).id() as u32,
        health: chunk.health_at(o.0 as int, o.1 as int, o.2 as int) as u32,
        ..f
    }
}

/// Block id and health of a cell.
pub fn cell_attrs(chunk: &Chunk, x: u32, y: u32, z: u32) -> (r: (u32, u32))
    requires
        chunk.wf(),
        in_chunk(x as int, y as int, z as int),
    ensures
        r.0 == chunk.block_at(x as int, y as int, z as int).id(),
        r.1 == chunk.health_at(x as int, y as int, z as int),
{
    proof {
        crate::chunk::lemma_cell_index_bounds(x as int, y as int, z as int);
    }
    let cell = chunk.blocks[x as usize + y as usize * CHUNK_SIZE + z as usize * CHUNK_SIZE * CHUNK_SIZE];
    let block = Block::from(cell & 15u8);
    (block.as_u8() as u32, (cell >> 4u8) as u32)
}

/// `rect_face` computed.
pub fn shade_rect(chunk: &Chunk, d: Direction, k: u32, r: Rect) -> (f: Face)
    requires
        chunk.wf(),
        k < CHUNK_SIZE,
        r.width >= 1,
        r.height >= 1,
        r.row + r.width <= CHUNK_SIZE,
        r.col + r.height <= CHUNK_SIZE,
    ensures
        f == rect_face(*chunk, d, k, r),
{
    let (x, y, z) = match d {
        Direction::Left | Direction::Right => (k, r.row, r.col),
        Direction::Down | Direction::Up => (r.row, k, r.col),
        Direction::Back | Direction::Front => (r.row, r.col, k),
    };
    let (block, health) = cell_attrs(chunk, x, y, z);
    Face { direction: d, depth: k, row: r.row, col: r.col, width: r.width, height: r.height, block, health }
}

/// Some face of the list holds the unit face `(k, i, j)` toward `d`.
pub open spec fn covered_by(faces: Seq<Face>, d: Direction, k: int, i: int, j: int) -> bool {
    exists|t: int| 0 <= t < faces.len() && #[trigger] face_covers(faces[t], d, k, i, j)
}

/// Two meshes that each cover exactly the visible faces of the same chunk
/// (the merged one and the per-face one) cover the same unit faces: none is
/// gained or lost.
pub proof fn lemma_same_coverage(f1: Seq<Face>, f2: Seq<Face>, chunk: Chunk, sides: Sides)
    requires
        faces_cover_visible(f1, chunk, sides),
        faces_cover_visible(f2, chunk, sides),
    ensures
        forall|d: Direction, k: int, i: int, j: int|
            #[trigger] covered_by(f1, d, k, i, j) <==> covered_by(f2, d, k, i, j),
{
    assert forall|d: Direction, k: int, i: int, j: int|
        #[trigger] covered_by(f1, d, k, i, j) <==> covered_by(f2, d, k, i, j) by {
        assert(Set::<Direction>::full().contains(d));
        if covered_by(f1, d, k, i, j) {
            let t = choose|t: int| 0 <= t < f1.len() && #[trigger] face_covers(f1[t], d, k, i, j);
            assert(plane_face_visible(chunk, sides, d, k, i, j));
        }
        if covered_by(f2, d, k, i, j) {
            let t = choose|t: int| 0 <= t < f2.len() && #[trigger] face_covers(f2[t], d, k, i, j);
            assert(plane_face_visible(chunk, sides, d, k, i, j));
        }
    }
}

/// A unit face: its direction and plane coordinates `(k, i, j)`.
pub type UnitFace = (Direction, int, int, int);

pub open spec fn face_area(f: Face) -> int {
    f.width * f.height
}

/// Sum of the areas of the faces.
pub open spec fn faces_area(fs: Seq<Face>) -> int
    decreases fs.len(),
{
    if fs.len() == 0 {
        0
    } else {
        faces_area(fs.drop_last()) + face_area(fs.last())
    }
}

/// The unit faces that a face rectangle holds.
pub open spec fn face_cells(f: Face) -> Set<UnitFace> {
    Set::new(|p: UnitFace| face_covers(f, p.0, p.1, p.2, p.3))
}

/// The visible unit faces of a chunk.
pub open spec fn visible_faces(chunk: Chunk, sides: Sides) -> Set<UnitFace> {
    Set::new(|p: UnitFace| in_plane(p.1, p.2, p.3) && plane_face_visible(chunk, sides, p.0, p.1, p.2, p.3))
}

pub open spec fn cells_block(d: Direction, k: int, r0: int, c0: int, w: int, h: int) -> Set<UnitFace> {
    Set::new(|p: UnitFace| p.0 == d && p.1 == k && r0 <= p.2 < r0 + w && c0 <= p.3 < c0 + h)
}

proof fn lemma_cells_row(d: Direction, k: int, a: int, c0: int, h: int)
    requires
        h >= 0,
    ensures
        cells_block(d, k, a, c0, 1, h).finite(),
        cells_block(d, k, a, c0, 1, h).len() == h,
    decreases h,
{
    if h == 0 {
        assert(cells_block(d, k, a, c0, 1, h) =~= Set::empty());
    } else {
        lemma_cells_row(d, k, a, c0, h - 1);
        assert(cells_block(d, k, a, c0, 1, h) =~= cells_block(d, k, a, c0, 1, h - 1).insert((d, k, a, c0 + h - 1)));
    }
}

proof fn lemma_cells_block(d: Direction, k: int, r0: int, c0: int, w: int, h: int)
    requires
        w >= 0,
        h >= 0,
    ensures
        cells_block(d, k, r0, c0, w, h).finite(),
        cells_block(d, k, r0, c0, w, h).len() == w * h,
    decreases w,
{
    if w == 0 {
        assert(cells_block(d, k, r0, c0, w, h) =~= Set::empty());
    } else {
        let g1 = cells_block(d, k, r0, c0, w - 1, h);
        let g2 = cells_block(d, k, r0 + w - 1, c0, 1, h);
        lemma_cells_block(d, k, r0, c0, w - 1, h);
        lemma_cells_row(d, k, r0 + w - 1, c0, h);
        assert(cells_block(d, k, r0, c0, w, h) =~= g1 + g2);
        assert(g1.disjoint(g2));
        vstd::set_lib::lemma_set_disjoint_lens(g1, g2);
        assert((w - 1) * h + h == w * h) by (nonlinear_arith);
    }
}

/// Pairwise disjoint face rectangles that together hold exactly the unit
/// faces of `s` have a total area equal to the size of `s`.
pub proof fn lemma_area_of_cover(faces: Seq<Face>, s: Set<UnitFace>)
    requires
        forall|t1: int, t2: int, d: Direction, k: int, i: int, j: int|
            0 <= t1 < faces.len() && 0 <= t2 < faces.len() && t1 != t2 && #[trigger] face_covers(
                faces[t1],
                d,
                k,
                i,
                j,
            ) ==> !#[trigger] face_covers(faces[t2], d, k, i, j),
        forall|p: UnitFace| #[trigger] s.contains(p) <==> covered_by(faces, p.0, p.1, p.2, p.3),
    ensures
        s.finite(),
        faces_area(faces) == s.len(),
    decreases faces.len(),
{
    if faces.len() == 0 {
        assert(s =~= Set::empty());
    } else {
        let n = faces.len() - 1;
        let last = faces[n];
        let rest = faces.drop_last();
        let cells = face_cells(last);
        let s2 = s.difference(cells);
        assert forall|p: UnitFace| #[trigger] s2.contains(p) <==> covered_by(rest, p.0, p.1, p.2, p.3) by {
            if s2.contains(p) {
                let t = choose|t: int| 0 <= t < faces.len() && #[trigger] face_covers(faces[t], p.0, p.1, p.2, p.3);
                assert(t != n);
                assert(rest[t] == faces[t]);
            }
            if covered_by(rest, p.0, p.1, p.2, p.3) {
                let t = choose|t: int| 0 <= t < rest.len() && #[trigger] face_covers(rest[t], p.0, p.1, p.2, p.3);
                assert(faces[t] == rest[t]);
                assert(face_covers(faces[t], p.0, p.1, p.2, p.3));
                assert(!face_covers(faces[n], p.0, p.1, p.2, p.3));
            }
        }
        assert forall|t1: int, t2: int, d: Direction, k: int, i: int, j: int|
            0 <= t1 < rest.len() && 0 <= t2 < rest.len() && t1 != t2 && #[trigger] face_covers(rest[t1], d, k, i, j)
                implies !#[trigger] face_covers(rest[t2], d, k, i, j) by {
            assert(rest[t1] == faces[t1]);
            assert(rest[t2] == faces[t2]);
            assert(face_covers(faces[t1], d, k, i, j));
        }
        lemma_area_of_cover(rest, s2);
        let w = last.width as int;
        let h = last.height as int;
        assert(cells =~= cells_block(last.direction, last.depth as int, last.row as int, last.col as int, w, h));
        lemma_cells_block(last.direction, last.depth as int, last.row as int, last.col as int, w, h);
        assert forall|p: UnitFace| cells.contains(p) implies s.contains(p) by {
            assert(face_covers(faces[n], p.0, p.1, p.2, p.3));
        }
        assert(s =~= s2 + cells);
        assert(s2.disjoint(cells));
        vstd::set_lib::lemma_set_disjoint_lens(s2, cells);
        assert(faces.last() == last);
    }
}

/// The merged mesh loses and gains no face against the per-face mesh: the
/// total area of its rectangles equals the number of unit faces, which is
/// the number of visible faces of the chunk.
pub proof fn lemma_merged_area(merged: Seq<Face>, unit: Seq<Face>, chunk: Chunk, sides: Sides)
    requires
        faces_cover_visible(merged, chunk, sides),
        faces_cover_visible(unit, chunk, sides),
        forall|t: int| 0 <= t < unit.len() ==> (#[trigger] unit[t]).width == 1 && unit[t].height == 1,
    ensures
        faces_area(merged) == visible_faces(chunk, sides).len(),
        faces_area(unit) == unit.len(),
        faces_area(merged) == unit.len(),
{
    let v = visible_faces(chunk, sides);
    assert forall|p: UnitFace| #[trigger] v.contains(p) <==> covered_by(merged, p.0, p.1, p.2, p.3) by {
        assert(Set::<Direction>::full().contains(p.0));
        if covered_by(merged, p.0, p.1, p.2, p.3) {
            let t = choose|t: int| 0 <= t < merged.len() && #[trigger] face_covers(merged[t], p.0, p.1, p.2, p.3);
        }
    }
    assert forall|p: UnitFace| #[trigger] v.contains(p) <==> covered_by(unit, p.0, p.1, p.2, p.3) by {
        assert(Set::<Direction>::full().contains(p.0));
        if covered_by(unit, p.0, p.1, p.2, p.3) {
            let t = choose|t: int| 0 <= t < unit.len() && #[trigger] face_covers(unit[t], p.0, p.1, p.2, p.3);
        }
    }
    lemma_area_of_cover(merged, v);
    lemma_area_of_cover(unit, v);
    lemma_unit_area(unit);
}

proof fn lemma_unit_area(fs: Seq<Face>)
    requires
        forall|t: int| 0 <= t < fs.len() ==> (#[trigger] fs[t]).width == 1 && fs[t].height == 1,
    ensures
        faces_area(fs) == fs.len(),
    decreases fs.len(),
{
    if fs.len() > 0 {
        let rest = fs.drop_last();
        assert forall|t: int| 0 <= t < rest.len() implies (#[trigger] rest[t]).width == 1 && rest[t].height == 1 by {
            assert(rest[t] == fs[t]);
        }
        lemma_unit_area(rest);
        assert(fs.last() == fs[fs.len() - 1]);
    }
}

} // verus!
