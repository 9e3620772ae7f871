//! Ordering the border points of a province into an outline.
//!
//! The points are put in seed order and the first of them starts the
//! outline. The outline then grows by the nearest point not yet used, as
//! long as one lies closer than `THRESHOLD` to its end; what is left when
//! none does is dropped.

use vstd::prelude::*;
use vstd::seq_lib::to_multiset_len;
use crate::border::BorderSet;
use crate::color::Color;
use crate::order::{lemma_seed_order_total, seed_order, seeded, sort_points};
use crate::point::Point;

verus! {

/// Two points are neighbours on an outline when their distance is below this.
pub const THRESHOLD: u32 = 10;

/// The square of the distance between `a` and `b`.
pub open spec fn dist2(a: Point, b: Point) -> int {
    (a.x - b.x) * (a.x - b.x) + (a.y - b.y) * (a.y - b.y)
}

/// Whether `a` and `b` lie closer to each other than `THRESHOLD`.
pub open spec fn near(a: Point, b: Point) -> bool {
    dist2(a, b) < THRESHOLD * THRESHOLD
}

/// The index in `rest` of the point nearest to `last`: of several at the same
/// distance, the first. `rest` is not empty.
pub open spec fn nearest(last: Point, rest: Seq<Point>) -> int
    decreases rest.len(),
{
    if rest.len() <= 1 {
        0
    } else {
        let best = nearest(last, rest.drop_last());
        if dist2(last, rest.last()) < dist2(last, rest[best]) {
            rest.len() - 1
        } else {
            best
        }
    }
}

/// The points that a walk from `last` picks up from `rest`, in order: each
/// time the nearest point left, until none is left or the nearest is not
/// near.
pub open spec fn walk(last: Point, rest: Seq<Point>) -> Seq<Point>
    decreases rest.len(),
{
    if rest.len() == 0 {
        Seq::empty()
    } else {
        let i = nearest(last, rest);
        if 0 <= i < rest.len() && near(last, rest[i]) {
            seq![rest[i]] + walk(rest[i], rest.remove(i))
        } else {
            Seq::empty()
        }
    }
}

/// The outline that `points` give. One point, or none, stays as it is.
pub open spec fn outline(points: Seq<Point>) -> Seq<Point> {
    if points.len() <= 1 {
        points
    } else {
        seq![seeded(points)[0]] + walk(seeded(points)[0], seeded(points).drop_first())
    }
}

/// `nearest` gives a place in `rest` whose point is as near to `last` as any,
/// and nearer than every point before it.
pub proof fn lemma_nearest_is_first_minimum(last: Point, rest: Seq<Point>)
    requires
        rest.len() > 0,
    ensures
        0 <= nearest(last, rest) < rest.len(),
        forall|j: int|
            0 <= j < rest.len() ==> dist2(last, rest[nearest(last, rest)]) <= dist2(
                last,
                #[trigger] rest[j],
            ),
        forall|j: int|
            0 <= j < nearest(last, rest) ==> dist2(last, rest[nearest(last, rest)]) < dist2(
                last,
                #[trigger] rest[j],
            ),
    decreases rest.len(),
{
    if rest.len() > 1 {
        lemma_nearest_is_first_minimum(last, rest.drop_last());
        let best = nearest(last, rest.drop_last());
        assert forall|j: int| 0 <= j < rest.len() - 1 implies dist2(last, rest[best]) <= dist2(
            last,
            #[trigger] rest[j],
        ) by {
            assert(rest.drop_last()[j] == rest[j]);
        }
        assert forall|j: int| 0 <= j < best implies dist2(last, rest[best]) < dist2(
            last,
            #[trigger] rest[j],
        ) by {
            assert(rest.drop_last()[j] == rest[j]);
        }
    }
}

/// The squared distance between `a` and `b` where they are near, and `None`
/// where they are not.
pub fn gap(a: Point, b: Point) -> (d: Option<u32>)
    ensures
        match d {
            Some(square) => near(a, b) && square == dist2(a, b),
            None => !near(a, b),
        },
{
    let dx: i128 = a.x as i128 - b.x as i128;
    let dy: i128 = a.y as i128 - b.y as i128;
    let reach: i128 = THRESHOLD as i128;
    if dx <= -reach || dx >= reach || dy <= -reach || dy >= reach {
        proof {
            assert(dx * dx >= 100 || dy * dy >= 100) by (nonlinear_arith)
                requires
                    dx <= -10 || dx >= 10 || dy <= -10 || dy >= 10,
            ;
            assert(dx * dx >= 0 && dy * dy >= 0) by (nonlinear_arith);
        }
        return None;
    }
    proof {
        assert(0 <= dx * dx <= 81 && 0 <= dy * dy <= 81) by (nonlinear_arith)
            requires
                -10 < dx < 10,
                -10 < dy < 10,
        ;
    }
    let d: i128 = dx * dx + dy * dy;
    if d < reach * reach {
        Some(d as u32)
    } else {
        None
    }
}

/// The place in `rest` of the point that a walk from `last` takes next, or
/// `None` where the walk ends.
pub fn next_stop(last: Point, rest: &Vec<Point>) -> (stop: Option<usize>)
    ensures
        match stop {
            Some(i) => i < rest@.len() && i == nearest(last, rest@) && near(last, rest@[i as int]),
            None => rest@.len() > 0 ==> !near(last, rest@[nearest(last, rest@)]),
        },
{
    let mut best: Option<(usize, u32)> = None;
    let mut k: usize = 0;
    while k < rest.len()
        invariant
            0 <= k <= rest@.len(),
            k == 0 ==> best.is_none(),
            k > 0 ==> match best {
                Some((i, d)) => {
                    &&& i == nearest(last, rest@.take(k as int))
                    &&& i < k
                    &&& near(last, rest@[i as int])
                    &&& d == dist2(last, rest@[i as int])
                },
                None => !near(last, rest@[nearest(last, rest@.take(k as int))]),
            },
        decreases rest@.len() - k,
    {
        proof {
            let wider = rest@.take(k + 1);
            assert(wider.drop_last() =~= rest@.take(k as int));
            assert(wider.last() == rest@[k as int]);
            if k > 0 {
                lemma_nearest_is_first_minimum(last, rest@.take(k as int));
                let was = nearest(last, rest@.take(k as int));
                assert(wider[was] == rest@[was]);
                assert(rest@.take(k as int)[was] == rest@[was]);
            }
        }
        match gap(last, rest[k]) {
            Some(d) => {
                let closer = match best {
                    Some((_, least)) => d < least,
                    None => true,
                };
                if closer {
                    best = Some((k, d));
                }
            },
            None => {},
        }
        k += 1;
    }
    proof {
        assert(rest@.take(k as int) =~= rest@);
    }
    match best {
        Some((i, _)) => Some(i),
        None => None,
    }
}

/// Orders `points` into an outline: the point that is first in seed order,
/// then each time the nearest point not yet used, while one is near the end
/// of the outline. Points that are left when the walk ends are dropped.
pub fn sequence_points(points: &mut Vec<Point>)
    ensures
        final(points)@ == outline(old(points)@),
{
    if points.len() <= 1 {
        return ;
    }
    sort_points(points);
    let ghost sorted = points@;
    proof {
        lemma_seed_order_total();
        old(points)@.lemma_sort_by_ensures(seed_order());
        to_multiset_len(sorted);
        to_multiset_len(old(points)@);
    }
    let start = points.remove(0);
    proof {
        assert(points@ =~= sorted.drop_first());
    }
    let mut path: Vec<Point> = Vec::new();
    path.push(start);
    let mut last = start;
    let mut going = true;
    while going
        invariant
            path@.len() > 0,
            last == path@.last(),
            going ==> path@ + walk(last, points@) == outline(old(points)@),
            !going ==> path@ == outline(old(points)@),
        decreases points@.len() + if going { 1nat } else { 0nat },
    {
        match next_stop(last, points) {
            Some(i) => {
                let ghost rest = points@;
                let ghost so_far = path@;
                let p = points.remove(i);
                path.push(p);
                last = p;
                proof {
                    assert(so_far + (seq![p] + walk(p, rest.remove(i as int))) =~= path@ + walk(
                        p,
                        points@,
                    ));
                }
            },
            None => {
                proof {
                    assert(path@ + Seq::<Point>::empty() =~= path@);
                }
                going = false;
            },
        }
    }
    *points = path;
}

/// `groups` with the points of each group ordered into an outline.
pub open spec fn outlined(groups: Seq<(Color, Seq<Point>)>) -> Seq<(Color, Seq<Point>)> {
    Seq::new(groups.len(), |i: int| (groups[i].0, outline(groups[i].1)))
}

/// Orders the points of every group into an outline, in place. The groups
/// and their colours stay as they are.
pub fn sort_provinces_points(borders: &mut BorderSet)
    ensures
        final(borders)@ == outlined(old(borders)@),
{
    let mut i: usize = 0;
    while i < borders.buckets.len()
        invariant
            0 <= i <= borders@.len(),
            borders@.len() == old(borders)@.len(),
            forall|k: int| 0 <= k < i ==> #[trigger] borders@[k] == outlined(old(borders)@)[k],
            forall|k: int| i <= k < borders@.len() ==> #[trigger] borders@[k] == old(borders)@[k],
        decreases borders@.len() - i,
    {
        let ghost before = borders@;
        let ghost buckets = borders.buckets@;
        sequence_points(&mut borders.buckets[i].points);
        proof {
            assert(borders@[i as int] == (before[i as int].0, outline(before[i as int].1)));
            assert forall|k: int| 0 <= k < borders@.len() && k != i implies #[trigger] borders@[k]
                == before[k] by {
                assert(borders.buckets@[k] == buckets[k]);
            }
        }
        i += 1;
    }
    proof {
        assert(borders@ =~= outlined(old(borders)@));
    }
}

} // verus!
