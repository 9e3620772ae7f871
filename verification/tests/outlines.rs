use province_map::border::{BorderSet, Bucket};
use province_map::color::Color;
use province_map::order::{comes_before, sort_points};
use province_map::point::Point;
use province_map::sequence::{gap, next_stop, sequence_points, sort_provinces_points};

fn pts(list: &[(i64, i64)]) -> Vec<Point> {
    list.iter().map(|&(x, y)| Point { x, y }).collect()
}

#[test]
fn seed_order_is_by_height_then_left_to_right() {
    let mut points = pts(&[(2, 1), (0, 1), (5, 0), (-3, 2), (1, 0)]);
    sort_points(&mut points);
    assert_eq!(points, pts(&[(1, 0), (5, 0), (0, 1), (2, 1), (-3, 2)]));
    assert!(comes_before(Point { x: 9, y: 0 }, Point { x: -9, y: 1 }));
    assert!(comes_before(Point { x: 1, y: 1 }, Point { x: 1, y: 1 }));
    assert!(!comes_before(Point { x: 2, y: 1 }, Point { x: 1, y: 1 }));
}

#[test]
fn gap_is_the_squared_distance_below_the_threshold() {
    let o = Point { x: 0, y: 0 };
    assert_eq!(gap(o, Point { x: 3, y: 4 }), Some(25));
    assert_eq!(gap(o, Point { x: -9, y: 4 }), Some(97));
    assert_eq!(gap(o, Point { x: 7, y: 7 }), Some(98));
    assert_eq!(gap(o, Point { x: 10, y: 0 }), None);
    assert_eq!(gap(o, Point { x: 6, y: 8 }), None);
    assert_eq!(gap(o, Point { x: 0, y: -10 }), None);
    assert_eq!(gap(o, o), Some(0));
    assert_eq!(gap(Point { x: i64::MIN, y: i64::MIN }, Point { x: i64::MAX, y: i64::MAX }), None);
}

#[test]
fn next_stop_is_the_first_of_the_nearest() {
    let o = Point { x: 0, y: 0 };
    assert_eq!(next_stop(o, &pts(&[(5, 0), (0, 1), (1, 0), (0, -1)])), Some(1));
    assert_eq!(next_stop(o, &pts(&[(10, 0), (0, 10)])), None);
    assert_eq!(next_stop(o, &Vec::new()), None);
    assert_eq!(next_stop(o, &pts(&[(50, 0), (0, 9)])), Some(1));
}

#[test]
fn square_ring_is_walked_whole() {
    let ring = [(0, 0), (1, 0), (2, 0), (2, 1), (2, 2), (1, 2), (0, 2), (0, 1)];
    let mut points = pts(&[(2, 2), (0, 1), (1, 0), (0, 2), (2, 0), (1, 2), (0, 0), (2, 1)]);
    sequence_points(&mut points);
    assert_eq!(points, pts(&ring));
    assert_eq!(points.len(), 8);
    for k in 1..points.len() {
        let dx = points[k].x - points[k - 1].x;
        let dy = points[k].y - points[k - 1].y;
        assert!(dx * dx + dy * dy < 100);
    }
}

#[test]
fn unreached_cluster_is_dropped() {
    let mut points = pts(&[(100, 100), (0, 1), (101, 100), (1, 0), (0, 0)]);
    sequence_points(&mut points);
    assert_eq!(points, pts(&[(0, 0), (1, 0), (0, 1)]));
}

#[test]
fn the_lower_cluster_is_the_one_that_stays() {
    let mut points = pts(&[(0, 0), (1, 0), (100, -100), (101, -100)]);
    sequence_points(&mut points);
    assert_eq!(points, pts(&[(100, -100), (101, -100)]));
}

#[test]
fn walk_stops_at_the_first_gap() {
    let mut points = pts(&[(0, 0), (10, 0), (11, 0)]);
    sequence_points(&mut points);
    assert_eq!(points, pts(&[(0, 0)]));
    let mut points = pts(&[(0, 0), (9, 0), (18, 0), (28, 0)]);
    sequence_points(&mut points);
    assert_eq!(points, pts(&[(0, 0), (9, 0), (18, 0)]));
}

#[test]
fn one_point_or_none_stays_as_it_is() {
    let mut one = pts(&[(7, -3)]);
    sequence_points(&mut one);
    assert_eq!(one, pts(&[(7, -3)]));
    let mut none: Vec<Point> = Vec::new();
    sequence_points(&mut none);
    assert!(none.is_empty());
}

#[test]
fn outline_does_not_depend_on_the_given_order() {
    let mut a = pts(&[(3, 0), (0, 0), (1, 1), (2, 0), (1, 0), (2, 1)]);
    let mut b = pts(&[(2, 1), (1, 0), (2, 0), (1, 1), (0, 0), (3, 0)]);
    sequence_points(&mut a);
    sequence_points(&mut b);
    assert_eq!(a, b);
    assert_eq!(a, pts(&[(0, 0), (1, 0), (2, 0), (3, 0), (2, 1), (1, 1)]));
}

#[test]
fn equal_points_are_all_kept() {
    let mut points = pts(&[(1, 1), (0, 0), (1, 1)]);
    sequence_points(&mut points);
    assert_eq!(points, pts(&[(0, 0), (1, 1), (1, 1)]));
}

#[test]
fn every_group_is_ordered_in_place() {
    let red = Color { r: 255, g: 0, b: 0 };
    let blue = Color { r: 0, g: 0, b: 255 };
    let mut borders = BorderSet {
        buckets: vec![
            Bucket { color: red, points: pts(&[(1, 1), (0, 0), (1, 0)]) },
            Bucket { color: blue, points: pts(&[(5, 5)]) },
            Bucket { color: Color { r: 1, g: 2, b: 3 }, points: pts(&[(0, 50), (0, 0)]) },
        ],
    };
    sort_provinces_points(&mut borders);
    assert_eq!(borders.buckets.len(), 3);
    assert_eq!(borders.buckets[0].color, red);
    assert_eq!(borders.buckets[0].points, pts(&[(0, 0), (1, 0), (1, 1)]));
    assert_eq!(borders.buckets[1].color, blue);
    assert_eq!(borders.buckets[1].points, pts(&[(5, 5)]));
    assert_eq!(borders.buckets[2].points, pts(&[(0, 0)]));
}
