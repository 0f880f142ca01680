use vstd::prelude::*;

verus! {

/// A 0-based (x, y) position on the board. `x` selects the row, `y` the
/// column; both must be strictly below the board's size to address a cell.
/// Pure value type: two coordinates are equal iff both components match.
#[derive(Clone, Copy, Debug, PartialEq, Eq, Structural)]
pub struct GridCoord {
    pub x: u8,
    pub y: u8,
}

impl GridCoord {
    /// Component-wise equality test.
    pub fn is_equal(&self, other: &GridCoord) -> (r: bool)
        ensures
            r == (self.x == other.x && self.y == other.y),
    {
        self.x == other.x && self.y == other.y
    }
}

} // verus!
