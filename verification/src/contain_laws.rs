//! What the test of containment answers on a rectangle.

use vstd::prelude::*;
use crate::contain::{above, before, crosses, crossings, inside, left_of_edge, Cursor};
use crate::point::Point;

verus! {

/// The rectangle with corners (`x0`, `y0`) and (`x1`, `y1`), as an outline
/// that starts at the lower left corner and goes round against the clock.
pub open spec fn rectangle(x0: i64, y0: i64, x1: i64, y1: i64) -> Seq<Point> {
    seq![
        Point { x: x0, y: y0 },
        Point { x: x1, y: y0 },
        Point { x: x1, y: y1 },
        Point { x: x0, y: y1 },
    ]
}

/// On a rectangle the test answers as follows: a position is inside exactly
/// when it lies on or right of the left side and strictly left of the right
/// side, and on or above the lower side and strictly below the upper side.
/// So the left and lower sides belong to the rectangle, the right and upper
/// sides do not.
pub proof fn lemma_inside_rectangle(at: Cursor, x0: i64, y0: i64, x1: i64, y1: i64)
    requires
        at.wf(),
        x0 < x1,
        y0 < y1,
    ensures
        inside(at, rectangle(x0, y0, x1, y1)) <==> {
            &&& x0 * at.per_unit <= at.x < x1 * at.per_unit
            &&& y0 * at.per_unit <= at.y < y1 * at.per_unit
        },
{
    let r = rectangle(x0, y0, x1, y1);
    let unit = at.per_unit as int;
    let rise = y1 - y0;
    assert(before(r, 0) == r[3]);
    assert(before(r, 1) == r[0]);
    assert(before(r, 2) == r[1]);
    assert(before(r, 3) == r[2]);
    let level = y0 * unit <= at.y < y1 * unit;
    assert(above(r[0], at) == above(r[1], at));
    assert(above(r[2], at) == above(r[3], at));
    assert(y0 * unit < y1 * unit) by (nonlinear_arith)
        requires
            y0 < y1,
            unit >= 1,
    ;
    assert((above(r[0], at) != above(r[3], at)) == level);
    assert((above(r[2], at) != above(r[1], at)) == level);
    // The left side, from the upper left corner down to the lower left.
    let left_run = (at.x - x0 * unit) * (y1 - y0);
    assert(left_of_edge(at, r[0], r[3]) == (left_run < 0)) by {
        assert((x0 - x0) * (at.y - y0 * unit) == 0) by (nonlinear_arith);
    }
    assert((left_run < 0) == (at.x < x0 * unit)) by (nonlinear_arith)
        requires
            left_run == (at.x - x0 * unit) * rise,
            rise > 0,
    ;
    // The right side, from the lower right corner up to the upper right.
    let right_run = (at.x - x1 * unit) * (y0 - y1);
    assert(left_of_edge(at, r[2], r[1]) == (right_run > 0)) by {
        assert((x1 - x1) * (at.y - y1 * unit) == 0) by (nonlinear_arith);
    }
    assert((right_run > 0) == (at.x < x1 * unit)) by (nonlinear_arith)
        requires
            right_run == (at.x - x1 * unit) * (-rise),
            rise > 0,
    ;
    assert(x0 * unit < x1 * unit) by (nonlinear_arith)
        requires
            x0 < x1,
            unit >= 1,
    ;
    assert(crosses(at, r[0], r[3]) == (level && at.x < x0 * unit));
    assert(!crosses(at, r[1], r[0]));
    assert(crosses(at, r[2], r[1]) == (level && at.x < x1 * unit));
    assert(!crosses(at, r[3], r[2]));
    reveal_with_fuel(crossings, 5);
    assert(crossings(at, r, 4) == (if crosses(at, r[0], r[3]) { 1nat } else { 0nat }) + (if crosses(
        at,
        r[2],
        r[1],
    ) { 1nat } else { 0nat }));
}

} // verus!
