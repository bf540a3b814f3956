use vstd::prelude::*;

verus! {

/// A single sample of a series: a position `x` and a value `y`.
///
/// Two points are equal exactly when both coordinates are equal.
#[derive(Debug, Clone, Copy, PartialEq, Eq, Structural)]
pub struct DataPoint {
    pub x: i64,
    pub y: i64,
}

impl DataPoint {
    /// The point at `(x, y)`.
    pub fn new(x: i64, y: i64) -> (point: Self)
        ensures
            point.x == x,
            point.y == y,
    {
        DataPoint { x, y }
    }
}

} // verus!
