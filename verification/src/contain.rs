//! Whether a position lies inside an outline.
//!
//! The test counts how often a ray from the position towards growing `x`
//! crosses an edge of the outline: an odd count means inside. The outline is
//! closed, its last point joined to its first.

use vstd::prelude::*;
use crate::point::{all_in_reach, Point};

verus! {

/// A position between the pixels: (`x` / `per_unit`, `y` / `per_unit`) in
/// map coordinates.
#[derive(Clone, Copy, Debug, PartialEq, Eq, Structural)]
pub struct Cursor {
    pub x: i64,
    pub y: i64,
    pub per_unit: u32,
}

impl Cursor {
    /// Whether the position is defined: the unit is divided into at least
    /// one part.
    pub open spec fn wf(self) -> bool {
        self.per_unit >= 1
    }
}

/// Whether `v` lies strictly higher than `at`.
pub open spec fn above(v: Point, at: Cursor) -> bool {
    v.y * at.per_unit > at.y
}

/// Whether `at` lies strictly left of the place where the line through `v1`
/// and `v2` reaches the height of `at`:
/// `at.x < (v2.x - v1.x) * (at.y - v1.y) / (v2.y - v1.y) + v1.x` in exact
/// arithmetic, with `at` taken in units. `v1` and `v2` differ in height.
pub open spec fn left_of_edge(at: Cursor, v1: Point, v2: Point) -> bool {
    let run = (at.x - v1.x * at.per_unit) * (v2.y - v1.y);
    let rise = (v2.x - v1.x) * (at.y - v1.y * at.per_unit);
    if v2.y > v1.y {
        run < rise
    } else {
        run > rise
    }
}

/// Whether the ray from `at` towards growing `x` crosses the edge between
/// `v1` and `v2`: one end lies strictly higher than `at`, the other does not,
/// and `at` lies strictly left of the edge.
pub open spec fn crosses(at: Cursor, v1: Point, v2: Point) -> bool {
    above(v1, at) != above(v2, at) && left_of_edge(at, v1, v2)
}

/// The point before place `i` on the closed outline `polygon`.
pub open spec fn before(polygon: Seq<Point>, i: int) -> Point {
    if i == 0 {
        polygon.last()
    } else {
        polygon[i - 1]
    }
}

/// How many of the first `edges` edges of `polygon` the ray from `at`
/// crosses. Edge `i` joins point `i` to the point before it.
pub open spec fn crossings(at: Cursor, polygon: Seq<Point>, edges: int) -> nat
    decreases edges,
{
    if edges <= 0 {
        0
    } else if crosses(at, polygon[edges - 1], before(polygon, edges - 1)) {
        crossings(at, polygon, edges - 1) + 1
    } else {
        crossings(at, polygon, edges - 1)
    }
}

/// Whether `at` lies inside `polygon`. Fewer than three points enclose
/// nothing.
pub open spec fn inside(at: Cursor, polygon: Seq<Point>) -> bool {
    polygon.len() >= 3 && crossings(at, polygon, polygon.len() as int) % 2 == 1
}

/// Whether the ray from `at` crosses the edge between `v1` and `v2`.
pub fn ray_crosses(at: Cursor, v1: Point, v2: Point) -> (crossed: bool)
    requires
        at.wf(),
        v1.in_reach(),
        v2.in_reach(),
    ensures
        crossed == crosses(at, v1, v2),
{
    let unit: i128 = at.per_unit as i128;
    let x: i128 = at.x as i128;
    let y: i128 = at.y as i128;
    let x1: i128 = v1.x as i128;
    let y1: i128 = v1.y as i128;
    let x2: i128 = v2.x as i128;
    let y2: i128 = v2.y as i128;
    proof {
        assert(-0x1_0000_0000_0000_0000 <= y1 * unit <= 0x1_0000_0000_0000_0000
            && -0x1_0000_0000_0000_0000 <= y2 * unit <= 0x1_0000_0000_0000_0000
            && -0x1_0000_0000_0000_0000 <= x1 * unit <= 0x1_0000_0000_0000_0000)
            by (nonlinear_arith)
            requires
                0 <= unit <= 0x1_0000_0000,
                -0x1_0000_0000 <= y1 <= 0x1_0000_0000,
                -0x1_0000_0000 <= y2 <= 0x1_0000_0000,
                -0x1_0000_0000 <= x1 <= 0x1_0000_0000,
        ;
    }
    let high1: bool = y1 * unit > y;
    let high2: bool = y2 * unit > y;
    if high1 == high2 {
        return false;
    }
    let dx: i128 = x - x1 * unit;
    let dy: i128 = y - y1 * unit;
    let up: i128 = y2 - y1;
    let along: i128 = x2 - x1;
    proof {
        assert(-0x1_0000_0000_0000_0000_0000_0000_0000 <= dx * up
            <= 0x1_0000_0000_0000_0000_0000_0000_0000 && -0x1_0000_0000_0000_0000_0000_0000_0000
            <= along * dy <= 0x1_0000_0000_0000_0000_0000_0000_0000) by (nonlinear_arith)
            requires
                -0x2_0000_0000_0000_0000 <= dx <= 0x2_0000_0000_0000_0000,
                -0x2_0000_0000_0000_0000 <= dy <= 0x2_0000_0000_0000_0000,
                -0x2_0000_0000 <= up <= 0x2_0000_0000,
                -0x2_0000_0000 <= along <= 0x2_0000_0000,
        ;
    }
    let run: i128 = dx * up;
    let rise: i128 = along * dy;
    if y2 > y1 {
        run < rise
    } else {
        run > rise
    }
}

/// Whether `point` lies inside the closed outline `polygon`, by counting the
/// edges that a ray from `point` towards growing `x` crosses. An outline of
/// fewer than three points holds no position.
pub fn is_point_inside_polygon(point: Cursor, polygon: &Vec<Point>) -> (is_inside: bool)
    requires
        point.wf(),
        all_in_reach(polygon@),
    ensures
        is_inside == inside(point, polygon@),
{
    if polygon.len() < 3 {
        return false;
    }
    let mut odd: bool = false;
    let mut j: usize = polygon.len() - 1;
    let mut i: usize = 0;
    while i < polygon.len()
        invariant
            point.wf(),
            all_in_reach(polygon@),
            polygon@.len() >= 3,
            0 <= i <= polygon@.len(),
            j < polygon@.len(),
            i < polygon@.len() ==> polygon@[j as int] == before(polygon@, i as int),
            odd == (crossings(point, polygon@, i as int) % 2 == 1),
        decreases polygon@.len() - i,
    {
        if ray_crosses(point, polygon[i], polygon[j]) {
            odd = !odd;
        }
        j = i;
        i += 1;
    }
    odd
}

} // verus!
