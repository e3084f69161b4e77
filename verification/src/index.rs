use vstd::prelude::*;

verus! {

/// A pixel position on the board: `x` grows to the right, `y` grows down.
#[derive(PartialEq, Eq, Structural, Hash, Copy, Clone, Debug, Default)]
pub struct Index {
    pub x: isize,
    pub y: isize,
}

impl Index {
    /// Component-wise sum.
    pub fn add(self, other: Index) -> (r: Index)
        requires
            isize::MIN <= self.x + other.x <= isize::MAX,
            isize::MIN <= self.y + other.y <= isize::MAX,
        ensures
            r.x == self.x + other.x,
            r.y == self.y + other.y,
    {
        Index { x: self.x + other.x, y: self.y + other.y }
    }

    /// Component-wise difference.
    pub fn sub(self, other: Index) -> (r: Index)
        requires
            isize::MIN <= self.x - other.x <= isize::MAX,
            isize::MIN <= self.y - other.y <= isize::MAX,
        ensures
            r.x == self.x - other.x,
            r.y == self.y - other.y,
    {
        Index { x: self.x - other.x, y: self.y - other.y }
    }
}

} // verus!
