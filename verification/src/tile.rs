use vstd::prelude::*;

verus! {

/// One of the three numbered-tile suits.
#[derive(Clone, Copy, PartialEq, Eq, Structural, Debug)]
pub enum Suit {
    Man,
    Pin,
    Sou,
}

/// The seven honor tiles: four winds and three dragons.
#[derive(Clone, Copy, PartialEq, Eq, Structural, Debug)]
pub enum Honor {
    East,
    South,
    West,
    North,
    White,
    Green,
    Red,
}

/// A single tile value. A red five is the same `Tile` value as a plain five
/// of its suit; redness is tracked separately as a count, never in the tile.
#[derive(Clone, Copy, PartialEq, Eq, Structural, Debug)]
pub enum Tile {
    Suited { suit: Suit, rank: u8 },
    Honor { kind: Honor },
}

impl Tile {
    /// A well-formed tile: suited ranks stay within 1..=9.
    pub open spec fn wf(self) -> bool {
        match self {
            Tile::Suited { suit: _, rank } => 1 <= rank <= 9,
            Tile::Honor { kind: _ } => true,
        }
    }

    /// Build a suited tile.
    pub fn suited(suit: Suit, rank: u8) -> (t: Tile)
        requires
            1 <= rank <= 9,
        ensures
            t == (Tile::Suited { suit, rank }),
            t.wf(),
    {
        Tile::Suited { suit, rank }
    }

    /// Build an honor tile.
    pub fn honor(kind: Honor) -> (t: Tile)
        ensures
            t == (Tile::Honor { kind }),
            t.wf(),
    {
        Tile::Honor { kind }
    }
}

/// Every well-formed tile gets a distinct slot in 0..34: the 27 suited
/// tiles first, suit by suit, then the 7 honors.
pub open spec fn spec_tile_index(t: Tile) -> int {
    match t {
        Tile::Suited { suit, rank } => match suit {
            Suit::Man => rank - 1,
            Suit::Pin => 8 + rank,
            Suit::Sou => 17 + rank,
        },
        Tile::Honor { kind } => match kind {
            Honor::East => 27,
            Honor::South => 28,
            Honor::West => 29,
            Honor::North => 30,
            Honor::White => 31,
            Honor::Green => 32,
            Honor::Red => 33,
        },
    }
}

/// The slot of a well-formed tile, as an index usable on a counts table.
pub fn tile_index(t: Tile) -> (i: usize)
    requires
        t.wf(),
    ensures
        i == spec_tile_index(t),
        i < 34,
{
    match t {
        Tile::Suited { suit, rank } => match suit {
            Suit::Man => (rank - 1) as usize,
            Suit::Pin => (8 + rank) as usize,
            Suit::Sou => (17 + rank) as usize,
        },
        Tile::Honor { kind } => match kind {
            Honor::East => 27,
            Honor::South => 28,
            Honor::West => 29,
            Honor::North => 30,
            Honor::White => 31,
            Honor::Green => 32,
            Honor::Red => 33,
        },
    }
}

/// Distinct well-formed tiles occupy distinct slots.
pub proof fn lemma_tile_index_injective(a: Tile, b: Tile)
    requires
        a.wf(),
        b.wf(),
        a != b,
    ensures
        spec_tile_index(a) != spec_tile_index(b),
{
}

} // verus!
