use vstd::prelude::*;

use crate::chunk::CHUNK_SIZE;

verus! {

/// Outward normal of a face.
#[derive(Debug, Clone, Copy, PartialEq, Eq, Structural)]
pub enum Direction {
    /// toward -x
    Left,
    /// toward +x
    Right,
    /// toward -y
    Down,
    /// toward +y
    Up,
    /// toward -z
    Back,
    /// toward +z
    Front,
}

impl Direction {
    /// The 3-bit normal tag stored in each vertex word.
    pub open spec fn normal(self) -> u32 {
        match self {
            Direction::Left => 0,
            Direction::Right => 1,
            Direction::Down => 2,
            Direction::Up => 3,
            Direction::Back => 4,
            Direction::Front => 5,
        }
    }

    pub open spec fn opposite(self) -> Direction {
        match self {
            Direction::Left => Direction::Right,
            Direction::Right => Direction::Left,
            Direction::Down => Direction::Up,
            Direction::Up => Direction::Down,
            Direction::Back => Direction::Front,
            Direction::Front => Direction::Back,
        }
    }

    pub fn get_normal(&self) -> (r: u32)
        ensures
            r == self.normal(),
            r < 6,
    {
        match self {
            Direction::Left => 0,
            Direction::Right => 1,
            Direction::Down => 2,
            Direction::Up => 3,
            Direction::Back => 4,
            Direction::Front => 5,
        }
    }

    pub fn get_opposite(self) -> (r: Self)
        ensures
            r == self.opposite(),
    {
        match self {
            Direction::Left => Direction::Right,
            Direction::Right => Direction::Left,
            Direction::Down => Direction::Up,
            Direction::Up => Direction::Down,
            Direction::Back => Direction::Front,
            Direction::Front => Direction::Back,
        }
    }
}

/// Distinct directions carry distinct normal tags, and the opposite of the
/// opposite is the direction itself.
pub proof fn lemma_direction_tags(a: Direction, b: Direction)
    ensures
        a.normal() == b.normal() <==> a == b,
        a.opposite().opposite() == a,
        a.opposite() != a,
{
}

/// One packed vertex: x in bits 0-4, y in 5-9, z in 10-14, block id in
/// 15-18, health in 19-22 and the normal tag in 23-25.
pub open spec fn vertex_word(normal: u32, block: u32, health: u32, x: u32, y: u32, z: u32) -> u32 {
    normal << 23u32 | health << 19u32 | block << 15u32 | z << 10u32 | y << 5u32 | x
}

/// Every field of a vertex word is read back by a shift and a mask.
pub proof fn lemma_vertex_fields(normal: u32, block: u32, health: u32, x: u32, y: u32, z: u32)
    requires
        normal < 8,
        block < 16,
        health < 16,
        x < 32,
        y < 32,
        z < 32,
    ensures
        vertex_word(normal, block, health, x, y, z) & 31u32 == x,
        (vertex_word(normal, block, health, x, y, z) >> 5u32) & 31u32 == y,
        (vertex_word(normal, block, health, x, y, z) >> 10u32) & 31u32 == z,
        (vertex_word(normal, block, health, x, y, z) >> 15u32) & 15u32 == block,
        (vertex_word(normal, block, health, x, y, z) >> 19u32) & 15u32 == health,
        (vertex_word(normal, block, health, x, y, z) >> 23u32) & 7u32 == normal,
{
    assert({
        let w = normal << 23u32 | health << 19u32 | block << 15u32 | z << 10u32 | y << 5u32 | x;
        &&& w & 31u32 == x
        &&& (w >> 5u32) & 31u32 == y
        &&& (w >> 10u32) & 31u32 == z
        &&& (w >> 15u32) & 15u32 == block
        &&& (w >> 19u32) & 15u32 == health
        &&& (w >> 23u32) & 7u32 == normal
    }) by (bit_vector)
        requires
            normal < 8,
            block < 16,
            health < 16,
            x < 32,
            y < 32,
            z < 32,
    ;
}

pub open spec fn clamp_low(v: u32) -> u32 {
    if v < CHUNK_SIZE {
        v
    } else {
        (CHUNK_SIZE - 1) as u32
    }
}

/// `v + size`, capped at `CHUNK_SIZE`.
pub open spec fn clamp_high(v: u32, size: u32) -> u32 {
    if v + size <= CHUNK_SIZE {
        (v + size) as u32
    } else {
        CHUNK_SIZE as u32
    }
}

pub open spec fn clamp_attr(v: u32) -> u32 {
    if v < 16 {
        v
    } else {
        15
    }
}

/// The four corner vertices of a face, counter-clockwise seen from outside.
pub open spec fn quad_vertices(
    direction: Direction,
    pos: (u32, u32, u32),
    size: (u32, u32, u32),
    block: u32,
    health: u32,
) -> Seq<u32> {
    let x = clamp_low(pos.0);
    let y = clamp_low(pos.1);
    let z = clamp_low(pos.2);
    let x1 = clamp_high(x, size.0);
    let y1 = clamp_high(y, size.1);
    let z1 = clamp_high(z, size.2);
    let n = direction.normal();
    let b = clamp_attr(block);
    let h = clamp_attr(health);
    match direction {
        Direction::Left => seq![
            vertex_word(n, b, h, x, y, z),
            vertex_word(n, b, h, x, y, z1),
            vertex_word(n, b, h, x, y1, z1),
            vertex_word(n, b, h, x, y1, z),
        ],
        Direction::Right => seq![
            vertex_word(n, b, h, x1, y, z1),
            vertex_word(n, b, h, x1, y, z),
            vertex_word(n, b, h, x1, y1, z),
            vertex_word(n, b, h, x1, y1, z1),
        ],
        Direction::Down => seq![
            vertex_word(n, b, h, x, y, z1),
            vertex_word(n, b, h, x, y, z),
            vertex_word(n, b, h, x1, y, z),
            vertex_word(n, b, h, x1, y, z1),
        ],
        Direction::Up => seq![
            vertex_word(n, b, h, x, y1, z),
            vertex_word(n, b, h, x, y1, z1),
            vertex_word(n, b, h, x1, y1, z1),
            vertex_word(n, b, h, x1, y1, z),
        ],
        Direction::Back => seq![
            vertex_word(n, b, h, x, y, z),
            vertex_word(n, b, h, x, y1, z),
            vertex_word(n, b, h, x1, y1, z),
            vertex_word(n, b, h, x1, y, z),
        ],
        Direction::Front => seq![
            vertex_word(n, b, h, x, y1, z1),
            vertex_word(n, b, h, x, y, z1),
            vertex_word(n, b, h, x1, y, z1),
            vertex_word(n, b, h, x1, y1, z1),
        ],
    }
}

/// The two triangles of a quad whose first vertex is number `offset`.
pub open spec fn quad_indices(offset: u32) -> Seq<u32> {
    seq![
        offset,
        (offset + 1) as u32,
        (offset + 2) as u32,
        offset,
        (offset + 2) as u32,
        (offset + 3) as u32,
    ]
}

/// Four packed vertices and six triangle indices of one face.
pub struct Quad {
    pub vertices: Vec<u32>,
    pub indices: Vec<u32>,
}

fn vertex(normal: u32, block: u32, health: u32, x: u32, y: u32, z: u32) -> (r: u32)
    ensures
        r == vertex_word(normal, block, health, x, y, z),
{
    normal << 23u32 | health << 19u32 | block << 15u32 | z << 10u32 | y << 5u32 | x
}

fn clamp_end(v: u32, size: u32) -> (r: u32)
    requires
        v < CHUNK_SIZE,
    ensures
        r == clamp_high(v, size),
{
    if size <= CHUNK_SIZE as u32 - v {
        v + size
    } else {
        CHUNK_SIZE as u32
    }
}

impl Quad {
    /// The quad of a face toward `direction` whose lowest corner is the cell
    /// `pos` and which spans `size` cells (1 along the normal). Coordinates
    /// are clamped into the chunk, block id and health to 15.
    pub fn from_direction(
        direction: Direction,
        vertices_offset: usize,
        pos: (u32, u32, u32),
        size: (u32, u32, u32),
        block: u32,
        health: u32,
    ) -> (r: Self)
        requires
            vertices_offset + 3 <= u32::MAX,
        ensures
            r.vertices@ == quad_vertices(direction, pos, size, block, health),
            r.indices@ == quad_indices(vertices_offset as u32),
    {
        let top = CHUNK_SIZE as u32 - 1;
        let x = if pos.0 < top { pos.0 } else { top };
        let y = if pos.1 < top { pos.1 } else { top };
        let z = if pos.2 < top { pos.2 } else { top };
        let x1 = clamp_end(x, size.0);
        let y1 = clamp_end(y, size.1);
        let z1 = clamp_end(z, size.2);
        let n = direction.get_normal();
        let b = if block < 16 { block } else { 15 };
        let h = if health < 16 { health } else { 15 };
        let vertices = match direction {
            Direction::Left => vec![
                vertex(n, b, h, x, y, z),
                vertex(n, b, h, x, y, z1),
                vertex(n, b, h, x, y1, z1),
                vertex(n, b, h, x, y1, z),
            ],
            Direction::Right => vec![
                vertex(n, b, h, x1, y, z1),
                vertex(n, b, h, x1, y, z),
                vertex(n, b, h, x1, y1, z),
                vertex(n, b, h, x1, y1, z1),
            ],
            Direction::Down => vec![
                vertex(n, b, h, x, y, z1),
                vertex(n, b, h, x, y, z),
                vertex(n, b, h, x1, y, z),
                vertex(n, b, h, x1, y, z1),
            ],
            Direction::Up => vec![
                vertex(n, b, h, x, y1, z),
                vertex(n, b, h, x, y1, z1),
                vertex(n, b, h, x1, y1, z1),
                vertex(n, b, h, x1, y1, z),
            ],
            Direction::Back => vec![
                vertex(n, b, h, x, y, z),
                vertex(n, b, h, x, y1, z),
                vertex(n, b, h, x1, y1, z),
                vertex(n, b, h, x1, y, z),
            ],
            Direction::Front => vec![
                vertex(n, b, h, x, y1, z1),
                vertex(n, b, h, x, y, z1),
                vertex(n, b, h, x1, y, z1),
                vertex(n, b, h, x1, y1, z1),
            ],
        };
        let o = vertices_offset as u32;
        let indices = vec![o, o + 1, o + 2, o, o + 2, o + 3];
        let r = Quad { vertices, indices };
        assert(r.vertices@ =~= quad_vertices(direction, pos, size, block, health));
        assert(r.indices@ =~= quad_indices(o));
        r
    }
}

} // verus!
