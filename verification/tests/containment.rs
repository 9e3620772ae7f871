use province_map::contain::{is_point_inside_polygon, ray_crosses, Cursor};
use province_map::point::Point;
use province_map::province::{map_update_system, province_hovered_update_system, Province};

fn pts(list: &[(i64, i64)]) -> Vec<Point> {
    list.iter().map(|&(x, y)| Point { x, y }).collect()
}

fn halves(x: i64, y: i64) -> Cursor {
    Cursor { x, y, per_unit: 2 }
}

fn unit_square() -> Vec<Point> {
    pts(&[(0, 0), (1, 0), (1, 1), (0, 1)])
}

#[test]
fn centre_of_the_unit_square_is_inside() {
    assert!(is_point_inside_polygon(halves(1, 1), &unit_square()));
}

#[test]
fn far_point_is_outside_the_unit_square() {
    assert!(!is_point_inside_polygon(halves(4, 4), &unit_square()));
    assert!(!is_point_inside_polygon(Cursor { x: 2, y: 2, per_unit: 1 }, &unit_square()));
    assert!(!is_point_inside_polygon(halves(-1, 1), &unit_square()));
    assert!(!is_point_inside_polygon(halves(1, 3), &unit_square()));
    assert!(!is_point_inside_polygon(halves(1, -1), &unit_square()));
}

#[test]
fn lower_and_left_sides_belong_to_the_square() {
    assert!(is_point_inside_polygon(halves(1, 0), &unit_square()));
    assert!(is_point_inside_polygon(halves(0, 1), &unit_square()));
    assert!(is_point_inside_polygon(halves(0, 0), &unit_square()));
}

#[test]
fn upper_and_right_sides_do_not_belong_to_the_square() {
    assert!(!is_point_inside_polygon(halves(1, 2), &unit_square()));
    assert!(!is_point_inside_polygon(halves(2, 1), &unit_square()));
    assert!(!is_point_inside_polygon(halves(2, 2), &unit_square()));
}

#[test]
fn fewer_than_three_points_hold_nothing() {
    let at = halves(0, 0);
    assert!(!is_point_inside_polygon(at, &Vec::new()));
    assert!(!is_point_inside_polygon(at, &pts(&[(0, 0)])));
    assert!(!is_point_inside_polygon(at, &pts(&[(-1, -1), (1, 1)])));
}

#[test]
fn triangle_with_slanted_sides() {
    let triangle = pts(&[(0, 0), (4, 0), (0, 4)]);
    assert!(is_point_inside_polygon(Cursor { x: 1, y: 1, per_unit: 1 }, &triangle));
    assert!(is_point_inside_polygon(Cursor { x: 19, y: 19, per_unit: 10 }, &triangle));
    assert!(!is_point_inside_polygon(Cursor { x: 21, y: 21, per_unit: 10 }, &triangle));
    assert!(!is_point_inside_polygon(Cursor { x: 3, y: 3, per_unit: 1 }, &triangle));
}

#[test]
fn hollow_shape_counts_crossings() {
    let shape = pts(&[(0, 0), (6, 0), (6, 6), (4, 6), (4, 2), (2, 2), (2, 6), (0, 6)]);
    assert!(is_point_inside_polygon(Cursor { x: 1, y: 4, per_unit: 1 }, &shape));
    assert!(!is_point_inside_polygon(Cursor { x: 3, y: 4, per_unit: 1 }, &shape));
    assert!(is_point_inside_polygon(Cursor { x: 5, y: 4, per_unit: 1 }, &shape));
    assert!(is_point_inside_polygon(Cursor { x: 3, y: 1, per_unit: 1 }, &shape));
}

#[test]
fn ray_crosses_an_edge_to_its_right() {
    let at = Cursor { x: 0, y: 1, per_unit: 1 };
    assert!(ray_crosses(at, Point { x: 2, y: 0 }, Point { x: 2, y: 2 }));
    assert!(ray_crosses(at, Point { x: 2, y: 2 }, Point { x: 2, y: 0 }));
    assert!(!ray_crosses(at, Point { x: -2, y: 0 }, Point { x: -2, y: 2 }));
    assert!(!ray_crosses(at, Point { x: 2, y: 2 }, Point { x: 3, y: 5 }));
    assert!(!ray_crosses(at, Point { x: 2, y: 1 }, Point { x: 5, y: 1 }));
}

#[test]
fn far_corners_do_not_overflow() {
    let reach: i64 = 0x1_0000_0000;
    let big = pts(&[(-reach, -reach), (reach, -reach), (reach, reach), (-reach, reach)]);
    assert!(is_point_inside_polygon(Cursor { x: 0, y: 0, per_unit: u32::MAX }, &big));
    assert!(!is_point_inside_polygon(Cursor { x: i64::MAX, y: i64::MAX, per_unit: 1 }, &big));
    assert!(!is_point_inside_polygon(Cursor { x: i64::MIN, y: 0, per_unit: 0x7fff_ffff }, &big));
    assert!(is_point_inside_polygon(Cursor { x: i64::MIN, y: 0, per_unit: u32::MAX }, &big));
    assert!(is_point_inside_polygon(Cursor { x: i64::MIN, y: 0, per_unit: 0x8000_0000 }, &big));
}

#[test]
fn hover_marks_the_provinces_under_the_cursor() {
    let provinces = vec![
        Province { identifier: String::from("A"), points: unit_square() },
        Province { identifier: String::from("B"), points: pts(&[(5, 5), (9, 5), (9, 9), (5, 9)]) },
        Province { identifier: String::from("C"), points: pts(&[(0, 0), (9, 9)]) },
    ];
    assert_eq!(
        province_hovered_update_system(Some(halves(1, 1)), &provinces),
        Some(vec![true, false, false])
    );
    assert_eq!(
        province_hovered_update_system(Some(halves(12, 12)), &provinces),
        Some(vec![false, true, false])
    );
    assert_eq!(
        map_update_system(Some(halves(40, 40)), &provinces),
        Some(vec![false, false, false])
    );
}

#[test]
fn hover_without_a_cursor_changes_nothing() {
    let provinces = vec![Province { identifier: String::from("A"), points: unit_square() }];
    assert_eq!(province_hovered_update_system(None, &provinces), None);
    assert_eq!(map_update_system(None, &provinces), None);
    assert_eq!(province_hovered_update_system(Some(halves(1, 1)), &Vec::new()), Some(Vec::new()));
}
