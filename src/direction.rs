//! The eight compass directions and the centre.
use vstd::prelude::*;

verus! {

/// One of nine offsets: the eight compass directions and `Center`, which is
/// never used to place a word.
#[derive(Clone, Copy, Debug, PartialEq, Eq, Structural, Hash, PartialOrd, Ord)]
pub enum Direction {
    NorthWest,
    North,
    NorthEast,
    West,
    Center,
    East,
    SouthWest,
    South,
    SouthEast,
}

/// Row step of a direction.
pub open spec fn dr(d: Direction) -> int {
    match d {
        Direction::NorthWest | Direction::North | Direction::NorthEast => -1,
        Direction::West | Direction::Center | Direction::East => 0,
        Direction::SouthWest | Direction::South | Direction::SouthEast => 1,
    }
}

/// Column step of a direction.
pub open spec fn dc(d: Direction) -> int {
    match d {
        Direction::NorthWest | Direction::West | Direction::SouthWest => -1,
        Direction::North | Direction::Center | Direction::South => 0,
        Direction::NorthEast | Direction::East | Direction::SouthEast => 1,
    }
}

/// Position of a direction in the row-major 3x3 layout.
pub open spec fn ordinal(d: Direction) -> int {
    match d {
        Direction::NorthWest => 0,
        Direction::North => 1,
        Direction::NorthEast => 2,
        Direction::West => 3,
        Direction::Center => 4,
        Direction::East => 5,
        Direction::SouthWest => 6,
        Direction::South => 7,
        Direction::SouthEast => 8,
    }
}

/// The direction at a given ordinal.
pub open spec fn direction_at(i: int) -> Direction {
    if i == 0 {
        Direction::NorthWest
    } else if i == 1 {
        Direction::North
    } else if i == 2 {
        Direction::NorthEast
    } else if i == 3 {
        Direction::West
    } else if i == 4 {
        Direction::Center
    } else if i == 5 {
        Direction::East
    } else if i == 6 {
        Direction::SouthWest
    } else if i == 7 {
        Direction::South
    } else {
        Direction::SouthEast
    }
}

/// Every direction sits at its own ordinal, and the ordinals cover 0..9.
pub proof fn lemma_ordinal_round_trip(d: Direction)
    ensures
        0 <= ordinal(d) < 9,
        direction_at(ordinal(d)) == d,
        d != Direction::Center <==> (dr(d) != 0 || dc(d) != 0),
{
}

#[allow(non_snake_case)]
impl Direction {
    pub fn NORTHWEST() -> (r: Direction)
        ensures
            r == Direction::NorthWest,
    {
        Direction::NorthWest
    }

    pub fn NORTH() -> (r: Direction)
        ensures
            r == Direction::North,
    {
        Direction::North
    }

    pub fn NORTHEAST() -> (r: Direction)
        ensures
            r == Direction::NorthEast,
    {
        Direction::NorthEast
    }

    pub fn WEST() -> (r: Direction)
        ensures
            r == Direction::West,
    {
        Direction::West
    }

    pub fn CENTER() -> (r: Direction)
        ensures
            r == Direction::Center,
    {
        Direction::Center
    }

    pub fn EAST() -> (r: Direction)
        ensures
            r == Direction::East,
    {
        Direction::East
    }

    pub fn SOUTHWEST() -> (r: Direction)
        ensures
            r == Direction::SouthWest,
    {
        Direction::SouthWest
    }

    pub fn SOUTH() -> (r: Direction)
        ensures
            r == Direction::South,
    {
        Direction::South
    }

    pub fn SOUTHEAST() -> (r: Direction)
        ensures
            r == Direction::SouthEast,
    {
        Direction::SouthEast
    }

    /// All nine directions, in ordinal order.
    pub fn DIRECTION_MATRIX() -> (r: [Direction; 9])
        ensures
            forall|i: int| 0 <= i < 9 ==> #[trigger] r@[i] == direction_at(i),
    {
        [
            Direction::NorthWest,
            Direction::North,
            Direction::NorthEast,
            Direction::West,
            Direction::Center,
            Direction::East,
            Direction::SouthWest,
            Direction::South,
            Direction::SouthEast,
        ]
    }

    /// Row step, in -1..=1.
    pub fn getRow(&self) -> (r: i32)
        ensures
            r == dr(*self),
    {
        match self {
            Direction::NorthWest | Direction::North | Direction::NorthEast => -1,
            Direction::West | Direction::Center | Direction::East => 0,
            Direction::SouthWest | Direction::South | Direction::SouthEast => 1,
        }
    }

    /// Column step, in -1..=1.
    pub fn getCol(&self) -> (r: i32)
        ensures
            r == dc(*self),
    {
        match self {
            Direction::NorthWest | Direction::West | Direction::SouthWest => -1,
            Direction::North | Direction::Center | Direction::South => 0,
            Direction::NorthEast | Direction::East | Direction::SouthEast => 1,
        }
    }

    /// Stable ordinal, in 0..9.
    pub fn getIndex(&self) -> (r: usize)
        ensures
            r == ordinal(*self),
    {
        match self {
            Direction::NorthWest => 0,
            Direction::North => 1,
            Direction::NorthEast => 2,
            Direction::West => 3,
            Direction::Center => 4,
            Direction::East => 5,
            Direction::SouthWest => 6,
            Direction::South => 7,
            Direction::SouthEast => 8,
        }
    }
}

} // verus!
