//! The seed order of border points: lowest first, and leftmost first among
//! points of one height.

use vstd::prelude::*;
use vstd::relations::{sorted_by, total_ordering};
use vstd::seq_lib::{lemma_sorted_unique, to_multiset_build, to_multiset_insert};
use crate::point::Point;

verus! {

/// Whether `a` comes no later than `b`: it lies lower, or at the same height
/// and not further right.
pub open spec fn precedes(a: Point, b: Point) -> bool {
    a.y < b.y || (a.y == b.y && a.x <= b.x)
}

/// `precedes` as a relation.
pub open spec fn seed_order() -> spec_fn(Point, Point) -> bool {
    |a: Point, b: Point| precedes(a, b)
}

/// `points` in seed order.
pub open spec fn seeded(points: Seq<Point>) -> Seq<Point> {
    points.sort_by(seed_order())
}

/// The seed order is a total order: any two points compare, and only a point
/// and itself compare both ways.
pub proof fn lemma_seed_order_total()
    ensures
        total_ordering(seed_order()),
{
    let r = seed_order();
    assert forall|a: Point, b: Point| #[trigger] r(a, b) && #[trigger] r(b, a) implies a == b by {
        assert(precedes(a, b) && precedes(b, a));
    }
    assert forall|a: Point, b: Point, c: Point| #[trigger] r(a, b) && #[trigger] r(b, c) implies r(
        a,
        c,
    ) by {
        assert(precedes(a, b) && precedes(b, c));
    }
    assert forall|a: Point, b: Point| #[trigger] r(a, b) || #[trigger] r(b, a) by {
        assert(precedes(a, b) || precedes(b, a));
    }
    assert forall|a: Point| #[trigger] r(a, a) by {
        assert(precedes(a, a));
    }
}

/// The seed order of a collection of points does not depend on the order in
/// which they were given: a sequence that holds the same points as `points`
/// and is in seed order is `seeded(points)`.
pub proof fn lemma_seeded_is_the_sorted_arrangement(points: Seq<Point>, arranged: Seq<Point>)
    requires
        arranged.to_multiset() == points.to_multiset(),
        sorted_by(arranged, seed_order()),
    ensures
        arranged == seeded(points),
{
    lemma_seed_order_total();
    points.lemma_sort_by_ensures(seed_order());
    lemma_sorted_unique(arranged, seeded(points), seed_order());
}

/// Whether `a` comes no later than `b` in seed order.
pub fn comes_before(a: Point, b: Point) -> (before: bool)
    ensures
        before == precedes(a, b),
{
    a.y < b.y || (a.y == b.y && a.x <= b.x)
}

/// Puts `points` in seed order: by height from the lowest, and from left to
/// right among points of one height.
pub fn sort_points(points: &mut Vec<Point>)
    ensures
        final(points)@ == seeded(old(points)@),
{
    let mut sorted: Vec<Point> = Vec::new();
    let mut k: usize = 0;
    proof {
        assert(points@.take(0) =~= sorted@);
    }
    while k < points.len()
        invariant
            0 <= k <= points@.len(),
            points@ == old(points)@,
            sorted_by(sorted@, seed_order()),
            sorted@.to_multiset() == points@.take(k as int).to_multiset(),
        decreases points@.len() - k,
    {
        let p = points[k];
        let mut j: usize = 0;
        while j < sorted.len() && comes_before(sorted[j], p)
            invariant
                0 <= j <= sorted@.len(),
                forall|i: int| 0 <= i < j ==> precedes(#[trigger] sorted@[i], p),
            decreases sorted@.len() - j,
        {
            j += 1;
        }
        let ghost before = sorted@;
        sorted.insert(j, p);
        proof {
            to_multiset_insert(before, j as int, p);
            assert(points@.take(k + 1) =~= points@.take(k as int).push(p));
            to_multiset_build(points@.take(k as int), p);
            let r = seed_order();
            assert forall|a: int, b: int| 0 <= a < b < sorted@.len() implies #[trigger] r(
                sorted@[a],
                sorted@[b],
            ) by {
                if b < j {
                    assert(r(before[a], before[b]));
                } else if b == j {
                    assert(precedes(before[a], p));
                } else if a == j {
                    assert(!precedes(before[j as int], p));
                    if b - 1 > j {
                        assert(r(before[j as int], before[b - 1]));
                    }
                } else if a < j {
                    assert(r(before[a], before[b - 1]));
                } else {
                    assert(r(before[a - 1], before[b - 1]));
                }
            }
        }
        k += 1;
    }
    proof {
        assert(points@.take(k as int) =~= points@);
        lemma_seeded_is_the_sorted_arrangement(points@, sorted@);
    }
    *points = sorted;
}

} // verus!
