use vstd::prelude::*;

verus! {

/// The kinds of voxel a chunk can hold; `Air` is the empty cell.
#[derive(Debug, Clone, Copy, PartialEq, Eq, Structural)]
pub enum Block {
    Air,
    Grass,
    Dirt,
    Stone,
    LightGrass,
    Wood,
    Leaves,
    LightLeaves,
}

impl Block {
    /// Numeric identifier of a block kind (0 for `Air` up to 7).
    pub open spec fn id(self) -> u8 {
        match self {
            Block::Air => 0,
            Block::Grass => 1,
            Block::Dirt => 2,
            Block::Stone => 3,
            Block::LightGrass => 4,
            Block::Wood => 5,
            Block::Leaves => 6,
            Block::LightLeaves => 7,
        }
    }

    /// Block kind named by an identifier; unknown identifiers read as `Air`.
    pub open spec fn from_id(value: u8) -> Block {
        if value == 1 {
            Block::Grass
        } else if value == 2 {
            Block::Dirt
        } else if value == 3 {
            Block::Stone
        } else if value == 4 {
            Block::LightGrass
        } else if value == 5 {
            Block::Wood
        } else if value == 6 {
            Block::Leaves
        } else if value == 7 {
            Block::LightLeaves
        } else {
            Block::Air
        }
    }

    pub fn as_u8(&self) -> (r: u8)
        ensures
            r == self.id(),
            r <= 7,
    {
        match self {
            Block::Air => 0,
            Block::Grass => 1,
            Block::Dirt => 2,
            Block::Stone => 3,
            Block::LightGrass => 4,
            Block::Wood => 5,
            Block::Leaves => 6,
            Block::LightLeaves => 7,
        }
    }

    pub fn from(value: u8) -> (r: Self)
        ensures
            r == Block::from_id(value),
    {
        match value {
            0 => Block::Air,
            1 => Block::Grass,
            2 => Block::Dirt,
            3 => Block::Stone,
            4 => Block::LightGrass,
            5 => Block::Wood,
            6 => Block::Leaves,
            7 => Block::LightLeaves,
            _ => Block::Air,
        }
    }
}

/// Reading back the identifier of a block kind gives the same kind.
pub proof fn lemma_block_id_round_trip(b: Block)
    ensures
        Block::from_id(b.id()) == b,
        b.id() <= 7,
        (b.id() == 0) <==> (b == Block::Air),
{
}

} // verus!
