use vstd::prelude::*;
use crate::direction::{OrdinalDirection, Rotation, ord_index, rot_index};

verus! {

/// A direction relative to an unrotated tile: four edges and four corners,
/// clockwise from the top.
#[derive(Clone, Copy, PartialEq, Eq, Structural, Hash, Debug)]
pub enum RelDirection {
    Up,
    UpRight,
    Right,
    DownRight,
    Down,
    DownLeft,
    Left,
    UpLeft,
}

pub open spec fn rel_index(d: RelDirection) -> int {
    match d {
        RelDirection::Up => 0,
        RelDirection::UpRight => 1,
        RelDirection::Right => 2,
        RelDirection::DownRight => 3,
        RelDirection::Down => 4,
        RelDirection::DownLeft => 5,
        RelDirection::Left => 6,
        RelDirection::UpLeft => 7,
    }
}

pub open spec fn rel_from_index(i: int) -> RelDirection {
    let k = i % 8;
    if k == 0 {
        RelDirection::Up
    } else if k == 1 {
        RelDirection::UpRight
    } else if k == 2 {
        RelDirection::Right
    } else if k == 3 {
        RelDirection::DownRight
    } else if k == 4 {
        RelDirection::Down
    } else if k == 5 {
        RelDirection::DownLeft
    } else if k == 6 {
        RelDirection::Left
    } else {
        RelDirection::UpLeft
    }
}

/// Edges sit at even compass positions, corners at odd ones.
pub open spec fn is_edge(d: RelDirection) -> bool {
    rel_index(d) % 2 == 0
}

impl RelDirection {
    /// The direction at compass position `i` (taken modulo 8).
    pub fn from_index(i: u8) -> (r: Self)
        ensures
            r == rel_from_index(i as int),
            rel_index(r) == i % 8,
    {
        match i % 8 {
            0 => RelDirection::Up,
            1 => RelDirection::UpRight,
            2 => RelDirection::Right,
            3 => RelDirection::DownRight,
            4 => RelDirection::Down,
            5 => RelDirection::DownLeft,
            6 => RelDirection::Left,
            _ => RelDirection::UpLeft,
        }
    }

    /// The compass position of this direction.
    pub fn index(self) -> (r: u8)
        ensures
            r == rel_index(self),
    {
        match self {
            RelDirection::Up => 0,
            RelDirection::UpRight => 1,
            RelDirection::Right => 2,
            RelDirection::DownRight => 3,
            RelDirection::Down => 4,
            RelDirection::DownLeft => 5,
            RelDirection::Left => 6,
            RelDirection::UpLeft => 7,
        }
    }

    /// The four edges, clockwise from the top.
    pub fn edges() -> (r: [RelDirection; 4])
        ensures
            r@ == seq![RelDirection::Up, RelDirection::Right, RelDirection::Down, RelDirection::Left],
    {
        [RelDirection::Up, RelDirection::Right, RelDirection::Down, RelDirection::Left]
    }

    /// The four corners, clockwise from the top right.
    pub fn corners() -> (r: [RelDirection; 4])
        ensures
            r@ == seq![
                RelDirection::UpRight,
                RelDirection::DownRight,
                RelDirection::DownLeft,
                RelDirection::UpLeft,
            ],
    {
        [RelDirection::UpRight, RelDirection::DownRight, RelDirection::DownLeft, RelDirection::UpLeft]
    }

    /// The next edge clockwise: two steps on from an edge, one from a corner.
    pub fn cw_neighbour_edge(&self) -> (r: RelDirection)
        ensures
            is_edge(r),
            rel_index(r) == if is_edge(*self) {
                (rel_index(*self) + 2) % 8
            } else {
                (rel_index(*self) + 1) % 8
            },
    {
        match self {
            RelDirection::Up => RelDirection::Right,
            RelDirection::UpRight => RelDirection::Right,
            RelDirection::Right => RelDirection::Down,
            RelDirection::DownRight => RelDirection::Down,
            RelDirection::Down => RelDirection::Left,
            RelDirection::DownLeft => RelDirection::Left,
            RelDirection::Left => RelDirection::Up,
            RelDirection::UpLeft => RelDirection::Up,
        }
    }

    /// The next edge counter-clockwise: two steps back from an edge, one from a corner.
    pub fn ccw_neighbour_edge(&self) -> (r: RelDirection)
        ensures
            is_edge(r),
            rel_index(r) == if is_edge(*self) {
                (rel_index(*self) + 6) % 8
            } else {
                (rel_index(*self) + 7) % 8
            },
    {
        match self {
            RelDirection::Up => RelDirection::Left,
            RelDirection::UpRight => RelDirection::Up,
            RelDirection::Right => RelDirection::Up,
            RelDirection::DownRight => RelDirection::Right,
            RelDirection::Down => RelDirection::Right,
            RelDirection::DownLeft => RelDirection::Down,
            RelDirection::Left => RelDirection::Down,
            RelDirection::UpLeft => RelDirection::Left,
        }
    }

    /// The same kind of direction a quarter turn clockwise.
    pub fn cw_neighbour(&self) -> (r: RelDirection)
        ensures
            rel_index(r) == (rel_index(*self) + 2) % 8,
    {
        match self {
            RelDirection::Up => RelDirection::Right,
            RelDirection::UpRight => RelDirection::DownRight,
            RelDirection::Right => RelDirection::Down,
            RelDirection::DownRight => RelDirection::DownLeft,
            RelDirection::Down => RelDirection::Left,
            RelDirection::DownLeft => RelDirection::UpLeft,
            RelDirection::Left => RelDirection::Up,
            RelDirection::UpLeft => RelDirection::UpRight,
        }
    }

    /// The absolute direction this relative one points to once the tile
    /// is turned by `rot` quarter turns.
    pub fn to_abs(&self, rot: &Rotation) -> (r: OrdinalDirection)
        ensures
            ord_index(r) == (rel_index(*self) + 2 * rot_index(*rot)) % 8,
    {
        let rot_amount: u8 = match rot {
            Rotation::Rot0 => 0,
            Rotation::Rot1 => 1,
            Rotation::Rot2 => 2,
            Rotation::Rot3 => 3,
        };
        let k = (self.index() + rot_amount * 2) % 8;
        match k {
            0 => OrdinalDirection::North,
            1 => OrdinalDirection::NorthEast,
            2 => OrdinalDirection::East,
            3 => OrdinalDirection::SouthEast,
            4 => OrdinalDirection::South,
            5 => OrdinalDirection::SouthWest,
            6 => OrdinalDirection::West,
            _ => OrdinalDirection::NorthWest,
        }
    }
}

/// `from_index` and `index` undo each other.
pub proof fn lemma_index_roundtrip(d: RelDirection, i: int)
    requires
        0 <= i,
    ensures
        rel_from_index(rel_index(d)) == d,
        rel_index(rel_from_index(i)) == i % 8,
{
}

/// Four clockwise quarter turns bring a direction back to itself, and the two
/// edges beside a corner are one step either side of it.
pub proof fn lemma_turns(d: RelDirection)
    ensures
        (rel_index(d) + 2 + 2 + 2 + 2) % 8 == rel_index(d),
        !is_edge(d) ==> (rel_index(d) + 1) % 8 != (rel_index(d) + 7) % 8,
{
}

} // verus!
