use vstd::prelude::*;

verus! {

/// A coordinate on the board: an (x, y) pair of non-negative integers,
/// compared by value.
#[derive(Clone, Copy, PartialEq, Eq, Structural, Debug, Hash)]
pub struct Point {
    pub x: usize,
    pub y: usize,
}

impl Point {
    /// Builds the coordinate (x, y).
    pub fn new(x: usize, y: usize) -> (r: Point)
        ensures
            r.x == x,
            r.y == y,
    {
        Point { x, y }
    }
}

} // verus!
