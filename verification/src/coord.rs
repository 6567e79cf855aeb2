use vstd::prelude::*;

verus! {

/// The position of one cell in the grid: `x` is the column, `y` the row.
#[derive(Clone, Copy, PartialEq, Eq, Structural, Debug)]
pub struct Coord {
    pub x: usize,
    pub y: usize,
}

impl Coord {
    pub fn new(x: usize, y: usize) -> (coord: Self)
        ensures
            coord == (Coord { x, y }),
    {
        Coord { x, y }
    }

    /// Whether this position lies inside a grid of `size` rows and columns.
    pub open spec fn within(self, size: nat) -> bool {
        self.x < size && self.y < size
    }

    /// Whether this position comes before `other` when the grid is read row
    /// by row, each row from its first column on.
    pub open spec fn precedes(self, other: Coord) -> bool {
        self.y < other.y || (self.y == other.y && self.x < other.x)
    }
}

} // verus!
