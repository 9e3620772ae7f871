//! Positions on the map.

use vstd::prelude::*;

verus! {

/// A position in map coordinates: the origin is the centre of the image, `x`
/// grows to the right and `y` grows upwards, one unit per pixel.
#[derive(Clone, Copy, Debug, PartialEq, Eq, Structural, Hash)]
pub struct Point {
    pub x: i64,
    pub y: i64,
}

/// The largest distance from the origin, along either axis, that the position
/// of a pixel can have: image dimensions are 32-bit.
pub const REACH: i64 = 0x1_0000_0000;

impl Point {
    /// Whether the position lies where a pixel of some image can lie.
    pub open spec fn in_reach(self) -> bool {
        -REACH <= self.x <= REACH && -REACH <= self.y <= REACH
    }
}

impl Point {
    /// Whether the position lies where a pixel of some image can lie.
    pub fn is_in_reach(&self) -> (yes: bool)
        ensures
            yes == self.in_reach(),
    {
        -REACH <= self.x && self.x <= REACH && -REACH <= self.y && self.y <= REACH
    }
}

/// Whether every position of `points` lies where a pixel of some image can
/// lie.
pub open spec fn all_in_reach(points: Seq<Point>) -> bool {
    forall|i: int| 0 <= i < points.len() ==> (#[trigger] points[i]).in_reach()
}

/// Whether every position of `points` lies where a pixel of some image can
/// lie.
pub fn points_in_reach(points: &Vec<Point>) -> (yes: bool)
    ensures
        yes == all_in_reach(points@),
{
    let mut i: usize = 0;
    while i < points.len()
        invariant
            0 <= i <= points@.len(),
            forall|k: int| 0 <= k < i ==> (#[trigger] points@[k]).in_reach(),
        decreases points@.len() - i,
    {
        if !points[i].is_in_reach() {
            return false;
        }
        i += 1;
    }
    true
}

} // verus!
