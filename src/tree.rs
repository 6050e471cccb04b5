use vstd::prelude::*;

use crate::block::Block;
use crate::chunk::CHUNK_SIZE;

verus! {

/// Radius of an oak's ball of leaves.
pub const OAK_RADIUS: i32 = 4;

/// Height of the centre of the leaves above the foot of the trunk.
pub const OAK_CROWN: i32 = 7;

/// Number of wood blocks in a trunk.
pub const OAK_TRUNK: i32 = 5;

/// A world cell and the block to put there.
pub type TreeCell = (i32, i32, i32, Block);

/// The offset lies within the crown's radius of its centre.
#[verifier::opaque]
pub open spec fn within_radius(a: int, b: int, c: int) -> bool {
    a * a + b * b + c * c <= OAK_RADIUS * OAK_RADIUS
}

pub open spec fn in_ball(a: int, b: int, c: int) -> bool {
    -OAK_RADIUS <= a <= OAK_RADIUS && -OAK_RADIUS <= b <= OAK_RADIUS && -OAK_RADIUS <= c <= OAK_RADIUS
        && within_radius(a, b, c)
}

/// Leaf cell of offset `(a, b, c)` from the centre of the crown of an oak
/// standing at `(x, y, z)`.
pub open spec fn leaf_cell(x: int, y: int, z: int, a: int, b: int, c: int) -> TreeCell {
    ((x + a) as i32, (y + b + OAK_CROWN) as i32, (z + c) as i32, Block::Leaves)
}

/// Position of offset `(a, b, c)` in the scan of the crown's cube.
pub open spec fn ball_pos(a: int, b: int, c: int) -> int {
    (a + OAK_RADIUS) * 81 + (b + OAK_RADIUS) * 9 + (c + OAK_RADIUS)
}

/// The cell holds leaves at some offset of the crown of an oak standing at `(x, y, z)`.
pub open spec fn is_leaf_of(x: int, y: int, z: int, cell: TreeCell) -> bool {
    exists|a: int, b: int, c: int| in_ball(a, b, c) && cell == leaf_cell(x, y, z, a, b, c)
}

/// One of the first `n` cells holds the leaves of offset `(a, b, c)`.
pub open spec fn has_leaf(x: int, y: int, z: int, cells: Seq<TreeCell>, n: int, a: int, b: int, c: int) -> bool {
    exists|t: int| 0 <= t < n && cells[t] == leaf_cell(x, y, z, a, b, c)
}

/// The cells of an oak standing at `(x, y, z)`: first the leaves, a ball of
/// radius 4 centred 7 above the foot, then the 5 wood blocks of the trunk
/// from the foot up, so that the trunk replaces the leaves it meets.
pub open spec fn is_oak(x: int, y: int, z: int, cells: Seq<TreeCell>) -> bool {
    let leaves = cells.len() - OAK_TRUNK;
    &&& cells.len() >= OAK_TRUNK
    &&& forall|t: int| 0 <= t < leaves ==> is_leaf_of(x, y, z, #[trigger] cells[t])
    &&& forall|a: int, b: int, c: int| #[trigger] in_ball(a, b, c) ==> has_leaf(x, y, z, cells, leaves, a, b, c)
    &&& forall|t: int|
        0 <= t < OAK_TRUNK ==> #[trigger] cells[leaves + t] == ((x as i32), (y + t) as i32, (z as i32), Block::Wood)
}

/// The cells of an oak standing at world cell `(x, y, z)`, in the order
/// they are to be written.
pub fn generate_oak(x: i32, y: i32, z: i32) -> (r: Vec<TreeCell>)
    requires
        i32::MIN + OAK_RADIUS <= x <= i32::MAX - OAK_RADIUS,
        i32::MIN + OAK_RADIUS <= z <= i32::MAX - OAK_RADIUS,
        y <= i32::MAX - OAK_CROWN - OAK_RADIUS,
    ensures
        is_oak(x as int, y as int, z as int, r@),
{
    let mut cells: Vec<TreeCell> = Vec::new();
    // offset of each leaf written, and where the leaf of each scanned offset went
    let ghost mut offs: Seq<(int, int, int)> = Seq::empty();
    let ghost mut slot: Map<int, int> = Map::empty();
    let mut a: i32 = -OAK_RADIUS;
    let mut b: i32 = -OAK_RADIUS;
    let mut c: i32 = -OAK_RADIUS;
    while a <= OAK_RADIUS
        invariant
            i32::MIN + OAK_RADIUS <= x <= i32::MAX - OAK_RADIUS,
            i32::MIN + OAK_RADIUS <= z <= i32::MAX - OAK_RADIUS,
            y <= i32::MAX - OAK_CROWN - OAK_RADIUS,
            -OAK_RADIUS <= a <= OAK_RADIUS + 1,
            -OAK_RADIUS <= b <= OAK_RADIUS,
            -OAK_RADIUS <= c <= OAK_RADIUS,
            a == OAK_RADIUS + 1 ==> b == -OAK_RADIUS && c == -OAK_RADIUS,
            cells@.len() == offs.len(),
            forall|t: int|
                0 <= t < offs.len() ==> in_ball((#[trigger] offs[t]).0, offs[t].1, offs[t].2) && cells@[t]
                    == leaf_cell(x as int, y as int, z as int, offs[t].0, offs[t].1, offs[t].2),
            forall|a2: int, b2: int, c2: int|
                in_ball(a2, b2, c2) && #[trigger] ball_pos(a2, b2, c2) < ball_pos(a as int, b as int, c as int)
                    ==> slot.contains_key(ball_pos(a2, b2, c2)) && 0 <= slot[ball_pos(a2, b2, c2)] < offs.len()
                    && offs[slot[ball_pos(a2, b2, c2)]] == (a2, b2, c2),
        decreases 729 - ball_pos(a as int, b as int, c as int),
    {
        let ghost cur = ball_pos(a as int, b as int, c as int);
        let ghost (pa, pb, pc) = (a as int, b as int, c as int);
        assert(0 <= a * a <= 16 && 0 <= b * b <= 16 && 0 <= c * c <= 16) by (nonlinear_arith)
            requires
                -4 <= a <= 4,
                -4 <= b <= 4,
                -4 <= c <= 4,
        ;
        let inside = a * a + b * b + c * c <= OAK_RADIUS * OAK_RADIUS;
        proof {
            reveal(within_radius);
            assert(inside == in_ball(pa, pb, pc));
        }
        if inside {
            cells.push((x + a, y + (b + OAK_CROWN), z + c, Block::Leaves));
            proof {
                slot = slot.insert(cur, offs.len() as int);
                offs = offs.push((pa, pb, pc));
            }
        }
        if c < OAK_RADIUS {
            c += 1;
        } else if b < OAK_RADIUS {
            c = -OAK_RADIUS;
            b += 1;
        } else {
            c = -OAK_RADIUS;
            b = -OAK_RADIUS;
            a += 1;
        }
        proof {
            assert(ball_pos(a as int, b as int, c as int) == cur + 1);
            assert forall|a2: int, b2: int, c2: int|
                in_ball(a2, b2, c2) && #[trigger] ball_pos(a2, b2, c2) < ball_pos(a as int, b as int, c as int)
                    implies slot.contains_key(ball_pos(a2, b2, c2)) && 0 <= slot[ball_pos(a2, b2, c2)] < offs.len()
                    && offs[slot[ball_pos(a2, b2, c2)]] == (a2, b2, c2) by {
                if ball_pos(a2, b2, c2) == cur {
                    assert(a2 == pa && b2 == pb && c2 == pc);
                }
            }
        }
    }
    let ghost leaves = cells@;
    let mut t: i32 = 0;
    while t < OAK_TRUNK
        invariant
            0 <= t <= OAK_TRUNK,
            y <= i32::MAX - OAK_CROWN - OAK_RADIUS,
            cells@.len() == leaves.len() + t,
            forall|q: int| 0 <= q < leaves.len() ==> #[trigger] cells@[q] == leaves[q],
            forall|q: int| 0 <= q < t ==> #[trigger] cells@[leaves.len() + q] == ((x as i32), (y + q) as i32, (z as i32), Block::Wood),
        decreases OAK_TRUNK - t,
    {
        cells.push((x, y + t, z, Block::Wood));
        t += 1;
    }
    proof {
        let r = cells@;
        let (xi, yi, zi) = (x as int, y as int, z as int);
        assert forall|q: int| 0 <= q < r.len() - OAK_TRUNK implies is_leaf_of(xi, yi, zi, #[trigger] r[q]) by {
            assert(r[q] == leaves[q]);
            let o = offs[q];
            assert(in_ball(o.0, o.1, o.2) && r[q] == leaf_cell(xi, yi, zi, o.0, o.1, o.2));
        }
        assert forall|a2: int, b2: int, c2: int| #[trigger] in_ball(a2, b2, c2) implies has_leaf(
            xi,
            yi,
            zi,
            r,
            r.len() - OAK_TRUNK,
            a2,
            b2,
            c2,
        ) by {
            assert(ball_pos(a2, b2, c2) < ball_pos(OAK_RADIUS + 1, -OAK_RADIUS, -OAK_RADIUS));
            let q = slot[ball_pos(a2, b2, c2)];
            assert(offs[q] == (a2, b2, c2));
            assert(r[q] == leaves[q]);
            assert(r[q] == leaf_cell(xi, yi, zi, a2, b2, c2));
        }
        assert forall|q: int| 0 <= q < OAK_TRUNK implies #[trigger] r[(r.len() - OAK_TRUNK) + q] == (
            (x as i32),
            (y + q) as i32,
            (z as i32),
            Block::Wood,
        ) by {
            assert(r[leaves.len() + q] == ((x as i32), (y + q) as i32, (z as i32), Block::Wood));
        }
    }
    cells
}

/// The cells of a fir standing at `(x, y, z)`: the same crown and trunk as an oak.
pub fn generate_fir(x: i32, y: i32, z: i32) -> (r: Vec<TreeCell>)
    requires
        i32::MIN + OAK_RADIUS <= x <= i32::MAX - OAK_RADIUS,
        i32::MIN + OAK_RADIUS <= z <= i32::MAX - OAK_RADIUS,
        y <= i32::MAX - OAK_CROWN - OAK_RADIUS,
    ensures
        is_oak(x as int, y as int, z as int, r@),
{
    generate_oak(x, y, z)
}

/// The tree planted at `(x, y, z)`: an oak.
pub fn generate_tree(x: i32, y: i32, z: i32) -> (r: Vec<TreeCell>)
    requires
        i32::MIN + OAK_RADIUS <= x <= i32::MAX - OAK_RADIUS,
        i32::MIN + OAK_RADIUS <= z <= i32::MAX - OAK_RADIUS,
        y <= i32::MAX - OAK_CROWN - OAK_RADIUS,
    ensures
        is_oak(x as int, y as int, z as int, r@),
{
    generate_oak(x, y, z)
}

/// Whether a tree whose foot is at world height `height` stands in the
/// chunk layer `chunk_y`.
pub fn tree_in_layer(height: i32, chunk_y: i32) -> (r: bool)
    ensures
        r == (chunk_y * CHUNK_SIZE <= height < chunk_y * CHUNK_SIZE + CHUNK_SIZE),
{
    assert(i32::MIN * 15 <= chunk_y * 15 <= i32::MAX * 15) by (nonlinear_arith)
        requires
            i32::MIN <= chunk_y <= i32::MAX,
    ;
    let low = chunk_y as i64 * CHUNK_SIZE as i64;
    let h = height as i64;
    low <= h && h < low + CHUNK_SIZE as i64
}

/// A random in-chunk column offset for a tree, away from the last column.
pub fn random_tree_offset() -> (r: u32)
    ensures
        r < CHUNK_SIZE - 1,
{
    let roll: u32 = rand::random::<u32>();
    roll % (CHUNK_SIZE as u32 - 1)
}

} // verus!
