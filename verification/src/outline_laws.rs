//! What holds of every outline.

use vstd::prelude::*;
use vstd::multiset::*;
use vstd::relations::sorted_by;
use vstd::seq_lib::*;
use crate::order::{lemma_seed_order_total, lemma_seeded_is_the_sorted_arrangement, precedes, seed_order, seeded};
use crate::point::{all_in_reach, Point};
use crate::sequence::{lemma_nearest_is_first_minimum, near, nearest, outline, walk};

verus! {

/// The end of a walk that started at `last` and picked up `picked`.
pub open spec fn walk_end(last: Point, picked: Seq<Point>) -> Point {
    if picked.len() == 0 {
        last
    } else {
        picked.last()
    }
}

/// A sequence without points holds nothing.
proof fn lemma_nothing_in_empty(points: Seq<Point>)
    requires
        points.len() == 0,
    ensures
        points.to_multiset() =~= Multiset::<Point>::empty(),
{
    broadcast use group_multiset_axioms;

    assert forall|p: Point| points.to_multiset().count(p) == 0 by {
        to_multiset_contains(points, p);
    }
}

/// A sequence that starts with `first` and goes on with `rest` holds `first`
/// and what `rest` holds.
proof fn lemma_cons_multiset(first: Point, rest: Seq<Point>)
    ensures
        (seq![first] + rest).to_multiset() =~= rest.to_multiset().insert(first),
{
    broadcast use group_multiset_axioms;

    lemma_multiset_commutative(seq![first], rest);
    assert(seq![first] =~= Seq::<Point>::empty().push(first));
    to_multiset_build(Seq::<Point>::empty(), first);
    lemma_nothing_in_empty(Seq::<Point>::empty());
}

/// A walk picks its points from those it was given, each step of it is
/// short, and it ends only where no point that is left lies near its end.
pub proof fn lemma_walk(last: Point, rest: Seq<Point>)
    ensures
        walk(last, rest).to_multiset().subset_of(rest.to_multiset()),
        walk(last, rest).len() > 0 ==> near(last, walk(last, rest)[0]),
        forall|k: int|
            0 < k < walk(last, rest).len() ==> near(
                walk(last, rest)[k - 1],
                #[trigger] walk(last, rest)[k],
            ),
        forall|p: Point|
            rest.to_multiset().count(p) > walk(last, rest).to_multiset().count(p) ==> !near(
                walk_end(last, walk(last, rest)),
                p,
            ),
    decreases rest.len(),
{
    broadcast use group_multiset_axioms;

    let picked = walk(last, rest);
    if rest.len() == 0 {
        lemma_nothing_in_empty(picked);
        lemma_nothing_in_empty(rest);
    } else {
        lemma_nearest_is_first_minimum(last, rest);
        let i = nearest(last, rest);
        if near(last, rest[i]) {
            let next = rest[i];
            let left = rest.remove(i);
            let tail = walk(next, left);
            lemma_walk(next, left);
            lemma_cons_multiset(next, tail);
            to_multiset_remove(rest, i);
            to_multiset_contains(rest, next);
            assert(rest.contains(next));
            assert(picked == seq![next] + tail);
            assert(picked[0] == next);
            assert forall|k: int| 0 < k < picked.len() implies near(
                picked[k - 1],
                #[trigger] picked[k],
            ) by {
                if k == 1 {
                    assert(picked[1] == tail[0]);
                } else {
                    assert(picked[k] == tail[k - 1]);
                    assert(picked[k - 1] == tail[k - 2]);
                }
            }
            assert(walk_end(last, picked) == walk_end(next, tail)) by {
                if tail.len() > 0 {
                    assert(picked.last() == tail.last());
                }
            }
            assert forall|p: Point|
                rest.to_multiset().count(p) > picked.to_multiset().count(p) implies !near(
                walk_end(last, picked),
                p,
            ) by {
                assert(left.to_multiset().count(p) > tail.to_multiset().count(p));
            }
            assert(picked.to_multiset().subset_of(rest.to_multiset())) by {
                assert forall|p: Point|
                    picked.to_multiset().count(p) <= rest.to_multiset().count(p) by {
                    assert(tail.to_multiset().count(p) <= left.to_multiset().count(p));
                }
            }
        } else {
            lemma_nothing_in_empty(picked);
            assert forall|p: Point| rest.to_multiset().count(p) > 0 implies !near(last, p) by {
                to_multiset_contains(rest, p);
                let j = choose|j: int| 0 <= j < rest.len() && rest[j] == p;
                assert(rest[j] == p);
            }
        }
    }
}

/// An outline holds only points that it was given, and none more often than
/// it was given.
pub proof fn lemma_outline_takes_from_points(points: Seq<Point>)
    ensures
        outline(points).to_multiset().subset_of(points.to_multiset()),
        outline(points).len() <= points.len(),
        forall|k: int|
            0 <= k < outline(points).len() ==> points.contains(#[trigger] outline(points)[k]),
        all_in_reach(points) ==> all_in_reach(outline(points)),
{
    broadcast use group_multiset_axioms;

    let made = outline(points);
    if points.len() > 1 {
        lemma_seed_order_total();
        points.lemma_sort_by_ensures(seed_order());
        let sorted = seeded(points);
        to_multiset_len(sorted);
        to_multiset_len(points);
        lemma_walk(sorted[0], sorted.drop_first());
        lemma_cons_multiset(sorted[0], walk(sorted[0], sorted.drop_first()));
        lemma_cons_multiset(sorted[0], sorted.drop_first());
        assert(seq![sorted[0]] + sorted.drop_first() =~= sorted);
        assert forall|p: Point| made.to_multiset().count(p) <= points.to_multiset().count(p) by {
            assert(walk(sorted[0], sorted.drop_first()).to_multiset().count(p)
                <= sorted.drop_first().to_multiset().count(p));
        }
    }
    to_multiset_len(made);
    to_multiset_len(points);
    lemma_len_of_subset(made.to_multiset(), points.to_multiset());
    assert forall|k: int| 0 <= k < made.len() implies points.contains(#[trigger] made[k]) by {
        to_multiset_contains(made, made[k]);
        to_multiset_contains(points, made[k]);
        assert(made.contains(made[k]));
    }
    if all_in_reach(points) {
        assert forall|k: int| 0 <= k < made.len() implies (#[trigger] made[k]).in_reach() by {
            assert(points.contains(made[k]));
            let j = choose|j: int| 0 <= j < points.len() && points[j] == made[k];
            assert(points[j].in_reach());
        }
    }
}

/// A smaller collection has fewer members.
proof fn lemma_len_of_subset(small: Multiset<Point>, large: Multiset<Point>)
    requires
        small.subset_of(large),
    ensures
        small.len() <= large.len(),
{
    broadcast use group_multiset_axioms;

    assert(small.add(large.sub(small)) =~= large);
}

/// The outline of two or more points, taken apart: it starts with the first
/// point in seed order and goes on with a walk through the others.
proof fn lemma_outline_parts(points: Seq<Point>)
    requires
        points.len() > 1,
    ensures
        seeded(points).len() == points.len(),
        seeded(points).to_multiset() == points.to_multiset(),
        sorted_by(seeded(points), seed_order()),
        outline(points) == seq![seeded(points)[0]] + walk(
            seeded(points)[0],
            seeded(points).drop_first(),
        ),
        outline(points).to_multiset() =~= walk(
            seeded(points)[0],
            seeded(points).drop_first(),
        ).to_multiset().insert(seeded(points)[0]),
        points.to_multiset() =~= seeded(points).drop_first().to_multiset().insert(
            seeded(points)[0],
        ),
{
    lemma_seed_order_total();
    points.lemma_sort_by_ensures(seed_order());
    let sorted = seeded(points);
    to_multiset_len(sorted);
    to_multiset_len(points);
    lemma_cons_multiset(sorted[0], walk(sorted[0], sorted.drop_first()));
    lemma_cons_multiset(sorted[0], sorted.drop_first());
    assert(seq![sorted[0]] + sorted.drop_first() =~= sorted);
}

/// Each point of an outline lies near the one before it.
pub proof fn lemma_outline_steps_are_short(points: Seq<Point>)
    ensures
        forall|k: int|
            0 < k < outline(points).len() ==> near(
                outline(points)[k - 1],
                #[trigger] outline(points)[k],
            ),
{
    if points.len() > 1 {
        lemma_outline_parts(points);
        let sorted = seeded(points);
        let tail = walk(sorted[0], sorted.drop_first());
        lemma_walk(sorted[0], sorted.drop_first());
        let made = outline(points);
        assert forall|k: int| 0 < k < made.len() implies near(made[k - 1], #[trigger] made[k]) by {
            if k == 1 {
                assert(made[1] == tail[0]);
                assert(made[0] == sorted[0]);
            } else {
                assert(made[k] == tail[k - 1]);
                assert(made[k - 1] == tail[k - 2]);
            }
        }
    }
}

/// An outline starts at the point that is first in seed order: the lowest
/// point, and the leftmost of the lowest.
pub proof fn lemma_outline_starts_lowest(points: Seq<Point>)
    requires
        points.len() > 0,
    ensures
        outline(points).len() > 0,
        points.contains(outline(points)[0]),
        forall|i: int| 0 <= i < points.len() ==> precedes(outline(points)[0], #[trigger] points[i]),
{
    if points.len() > 1 {
        lemma_outline_parts(points);
        let sorted = seeded(points);
        assert(outline(points)[0] == sorted[0]);
        to_multiset_contains(sorted, sorted[0]);
        to_multiset_contains(points, sorted[0]);
        assert(sorted.contains(sorted[0]));
        assert forall|i: int| 0 <= i < points.len() implies precedes(
            sorted[0],
            #[trigger] points[i],
        ) by {
            to_multiset_contains(points, points[i]);
            to_multiset_contains(sorted, points[i]);
            assert(points.contains(points[i]));
            let j = choose|j: int| 0 <= j < sorted.len() && sorted[j] == points[i];
            if j > 0 {
                assert(seed_order()(sorted[0], sorted[j]));
            }
        }
    } else {
        assert(points[0] == outline(points)[0]);
    }
}

/// An outline of two or more points ends only where it is stuck: a point
/// that was given and is not on the outline does not lie near its end.
pub proof fn lemma_outline_ends_only_when_stuck(points: Seq<Point>)
    requires
        points.len() > 1,
    ensures
        forall|p: Point|
            points.to_multiset().count(p) > outline(points).to_multiset().count(p) ==> !near(
                outline(points).last(),
                p,
            ),
{
    broadcast use group_multiset_axioms;

    lemma_outline_parts(points);
    let sorted = seeded(points);
    let tail = walk(sorted[0], sorted.drop_first());
    lemma_walk(sorted[0], sorted.drop_first());
    let made = outline(points);
    assert(made.last() == walk_end(sorted[0], tail)) by {
        if tail.len() > 0 {
            assert(made.last() == tail.last());
        }
    }
    assert forall|p: Point|
        points.to_multiset().count(p) > made.to_multiset().count(p) implies !near(
        made.last(),
        p,
    ) by {
        assert(sorted.drop_first().to_multiset().count(p) > tail.to_multiset().count(p));
    }
}

/// Where every two of the points lie near each other, the outline drops
/// none: it holds the very points that were given.
pub proof fn lemma_close_points_all_kept(points: Seq<Point>)
    requires
        forall|i: int, j: int|
            0 <= i < points.len() && 0 <= j < points.len() ==> near(
                #[trigger] points[i],
                #[trigger] points[j],
            ),
    ensures
        outline(points).to_multiset() == points.to_multiset(),
        outline(points).len() == points.len(),
{
    broadcast use group_multiset_axioms;

    let made = outline(points);
    if points.len() > 1 {
        lemma_outline_takes_from_points(points);
        lemma_outline_ends_only_when_stuck(points);
        lemma_outline_starts_lowest(points);
        let end = made.last();
        assert(points.contains(end));
        let i = choose|i: int| 0 <= i < points.len() && points[i] == end;
        assert forall|p: Point| points.to_multiset().count(p) == made.to_multiset().count(p) by {
            if points.to_multiset().count(p) > made.to_multiset().count(p) {
                to_multiset_contains(points, p);
                let j = choose|j: int| 0 <= j < points.len() && points[j] == p;
                assert(near(points[i], points[j]));
            }
        }
        assert(made.to_multiset() =~= points.to_multiset());
    }
    to_multiset_len(made);
    to_multiset_len(points);
}

/// The outline depends on which points are given and on nothing else: two
/// sequences that hold the same points, in whatever order, give the same
/// outline.
pub proof fn lemma_outline_ignores_given_order(a: Seq<Point>, b: Seq<Point>)
    requires
        a.to_multiset() == b.to_multiset(),
    ensures
        outline(a) == outline(b),
{
    to_multiset_len(a);
    to_multiset_len(b);
    if a.len() > 1 {
        lemma_seed_order_total();
        a.lemma_sort_by_ensures(seed_order());
        lemma_seeded_is_the_sorted_arrangement(b, seeded(a));
    } else if a.len() == 1 {
        to_multiset_contains(a, a[0]);
        to_multiset_contains(b, a[0]);
        assert(a.contains(a[0]));
        assert(a =~= b);
    } else {
        assert(a =~= b);
    }
}

/// A walk that starts outside `apart` never enters it, where no point of
/// `apart` lies near a point outside it.
proof fn lemma_walk_stays_out(last: Point, rest: Seq<Point>, apart: Set<Point>)
    requires
        !apart.contains(last),
        forall|p: Point, q: Point|
            (p == last || rest.contains(p)) && !apart.contains(p) && apart.contains(q)
                && rest.contains(q) ==> !near(p, q),
    ensures
        forall|k: int| 0 <= k < walk(last, rest).len() ==> !apart.contains(
            #[trigger] walk(last, rest)[k],
        ),
    decreases rest.len(),
{
    if rest.len() > 0 {
        lemma_nearest_is_first_minimum(last, rest);
        let i = nearest(last, rest);
        if near(last, rest[i]) {
            let next = rest[i];
            let left = rest.remove(i);
            assert(rest.contains(next));
            assert forall|q: Point| left.contains(q) implies rest.contains(q) by {
                let j = choose|j: int| 0 <= j < left.len() && left[j] == q;
                if j < i {
                    assert(rest[j] == q);
                } else {
                    assert(rest[j + 1] == q);
                }
            }
            lemma_walk_stays_out(next, left, apart);
            let picked = walk(last, rest);
            let tail = walk(next, left);
            assert(picked == seq![next] + tail);
            assert forall|k: int| 0 <= k < picked.len() implies !apart.contains(
                #[trigger] picked[k],
            ) by {
                if k > 0 {
                    assert(picked[k] == tail[k - 1]);
                }
            }
        }
    }
}

/// Points that lie apart are dropped. Let `apart` be a part of the plane that
/// the outline does not start in, and let no given point in `apart` lie near
/// a given point outside it: then no point of the outline lies in `apart`.
pub proof fn lemma_far_points_are_dropped(points: Seq<Point>, apart: Set<Point>)
    requires
        points.len() > 0,
        !apart.contains(outline(points)[0]),
        forall|p: Point, q: Point|
            points.contains(p) && points.contains(q) && !apart.contains(p) && apart.contains(q)
                ==> !near(p, q),
    ensures
        forall|k: int| 0 <= k < outline(points).len() ==> !apart.contains(
            #[trigger] outline(points)[k],
        ),
{
    if points.len() > 1 {
        lemma_outline_parts(points);
        let sorted = seeded(points);
        let rest = sorted.drop_first();
        assert forall|q: Point| sorted.contains(q) implies points.contains(q) by {
            to_multiset_contains(sorted, q);
            to_multiset_contains(points, q);
        }
        assert(sorted.contains(sorted[0]));
        assert forall|q: Point| rest.contains(q) implies sorted.contains(q) by {
            let j = choose|j: int| 0 <= j < rest.len() && rest[j] == q;
            assert(sorted[j + 1] == q);
        }
        assert(outline(points)[0] == sorted[0]);
        lemma_walk_stays_out(sorted[0], rest, apart);
        let made = outline(points);
        let tail = walk(sorted[0], rest);
        assert forall|k: int| 0 <= k < made.len() implies !apart.contains(#[trigger] made[k]) by {
            if k > 0 {
                assert(made[k] == tail[k - 1]);
            }
        }
    }
}

} // verus!
