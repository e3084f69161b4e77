use vstd::prelude::*;

verus! {

/// The four edge directions of a tile.
#[derive(Debug, PartialEq, Eq, Structural, Hash, Clone, Copy)]
pub enum Direction {
    North,
    East,
    South,
    West,
}

/// The eight directions around a tile, clockwise from north.
#[derive(Debug, PartialEq, Eq, Structural, Hash, Clone, Copy)]
pub enum OrdinalDirection {
    North,
    NorthEast,
    East,
    SouthEast,
    South,
    SouthWest,
    West,
    NorthWest,
}

/// A quarter-turn count applied to a tile picture.
#[derive(Debug, PartialEq, Eq, Structural, Hash, Clone, Copy)]
pub enum Rotation {
    Rot0,
    Rot1,
    Rot2,
    Rot3,
}

/// Position of a direction on the clockwise compass, north being 0.
pub open spec fn dir_index(d: Direction) -> int {
    match d {
        Direction::North => 0,
        Direction::East => 2,
        Direction::South => 4,
        Direction::West => 6,
    }
}

pub open spec fn ord_index(d: OrdinalDirection) -> int {
    match d {
        OrdinalDirection::North => 0,
        OrdinalDirection::NorthEast => 1,
        OrdinalDirection::East => 2,
        OrdinalDirection::SouthEast => 3,
        OrdinalDirection::South => 4,
        OrdinalDirection::SouthWest => 5,
        OrdinalDirection::West => 6,
        OrdinalDirection::NorthWest => 7,
    }
}

pub open spec fn ord_from_index(i: int) -> OrdinalDirection {
    let k = i % 8;
    if k == 0 {
        OrdinalDirection::North
    } else if k == 1 {
        OrdinalDirection::NorthEast
    } else if k == 2 {
        OrdinalDirection::East
    } else if k == 3 {
        OrdinalDirection::SouthEast
    } else if k == 4 {
        OrdinalDirection::South
    } else if k == 5 {
        OrdinalDirection::SouthWest
    } else if k == 6 {
        OrdinalDirection::West
    } else {
        OrdinalDirection::NorthWest
    }
}

/// The ordinal direction that a plain direction names.
pub open spec fn spec_ord_of(d: Direction) -> OrdinalDirection {
    match d {
        Direction::North => OrdinalDirection::North,
        Direction::East => OrdinalDirection::East,
        Direction::South => OrdinalDirection::South,
        Direction::West => OrdinalDirection::West,
    }
}

pub open spec fn rot_index(r: Rotation) -> int {
    match r {
        Rotation::Rot0 => 0,
        Rotation::Rot1 => 1,
        Rotation::Rot2 => 2,
        Rotation::Rot3 => 3,
    }
}

impl Direction {
    /// The direction pointing the other way.
    pub fn opposite(&self) -> (r: Self)
        ensures
            dir_index(r) == (dir_index(*self) + 4) % 8,
    {
        match self {
            Direction::North => Direction::South,
            Direction::East => Direction::West,
            Direction::South => Direction::North,
            Direction::West => Direction::East,
        }
    }

    /// All four directions, clockwise from north.
    pub fn all() -> (r: [Direction; 4])
        ensures
            r@ == seq![Direction::North, Direction::East, Direction::South, Direction::West],
    {
        [Direction::North, Direction::East, Direction::South, Direction::West]
    }
}

impl OrdinalDirection {
    /// The direction pointing the other way.
    pub fn opposite(&self) -> (r: Self)
        ensures
            ord_index(r) == (ord_index(*self) + 4) % 8,
    {
        match self {
            OrdinalDirection::North => OrdinalDirection::South,
            OrdinalDirection::NorthEast => OrdinalDirection::SouthWest,
            OrdinalDirection::East => OrdinalDirection::West,
            OrdinalDirection::SouthEast => OrdinalDirection::NorthWest,
            OrdinalDirection::South => OrdinalDirection::North,
            OrdinalDirection::SouthWest => OrdinalDirection::NorthEast,
            OrdinalDirection::West => OrdinalDirection::East,
            OrdinalDirection::NorthWest => OrdinalDirection::SouthEast,
        }
    }

    /// The ordinal direction that a plain direction names.
    pub fn from_direction(dir: Direction) -> (r: Self)
        ensures
            r == spec_ord_of(dir),
            ord_index(r) == dir_index(dir),
    {
        match dir {
            Direction::North => OrdinalDirection::North,
            Direction::East => OrdinalDirection::East,
            Direction::South => OrdinalDirection::South,
            Direction::West => OrdinalDirection::West,
        }
    }

    /// All eight directions, clockwise from north.
    pub fn all() -> (r: [OrdinalDirection; 8])
        ensures
            forall|i: int| 0 <= i < 8 ==> ord_index(#[trigger] r@[i]) == i,
            r@.len() == 8,
    {
        [
            OrdinalDirection::North,
            OrdinalDirection::NorthEast,
            OrdinalDirection::East,
            OrdinalDirection::SouthEast,
            OrdinalDirection::South,
            OrdinalDirection::SouthWest,
            OrdinalDirection::West,
            OrdinalDirection::NorthWest,
        ]
    }
}

impl Rotation {
    /// The number of quarter turns.
    pub fn index(&self) -> (r: u32)
        ensures
            r == rot_index(*self),
    {
        match self {
            Rotation::Rot0 => 0,
            Rotation::Rot1 => 1,
            Rotation::Rot2 => 2,
            Rotation::Rot3 => 3,
        }
    }

    /// All four rotations in increasing order.
    pub fn all() -> (r: [Rotation; 4])
        ensures
            r@ == seq![Rotation::Rot0, Rotation::Rot1, Rotation::Rot2, Rotation::Rot3],
    {
        [Rotation::Rot0, Rotation::Rot1, Rotation::Rot2, Rotation::Rot3]
    }
}

/// Every compass position names exactly one direction, and `opposite` undoes itself.
pub proof fn lemma_opposite_involution(d: Direction, o: OrdinalDirection)
    ensures
        ord_from_index(ord_index(o)) == o,
        ord_index(ord_from_index(ord_index(o) + 4)) == (ord_index(o) + 4) % 8,
        ord_from_index((ord_index(o) + 4) % 8 + 4) == o,
        dir_index(d) == ord_index(spec_ord_of(d)),
{
}

} // verus!
