//! Positions in a buffer.
use vstd::prelude::*;

verus! {

/// A position in a buffer: a row, and a column that counts the bytes from the
/// start of that row.
#[derive(Clone, Copy, Debug, PartialEq, Eq, Structural)]
pub struct Point {
    pub row: u32,
    pub column: u32,
}

impl Point {
    /// Whether the position lies at or before another one.
    pub open spec fn up_to(self, other: Point) -> bool {
        self.row < other.row || (self.row == other.row && self.column <= other.column)
    }

    pub fn new(row: u32, column: u32) -> (r: Point)
        ensures
            r == (Point { row, column }),
    {
        Point { row, column }
    }
}

} // verus!
