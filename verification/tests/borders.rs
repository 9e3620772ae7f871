use province_map::border::{provinces_from_bmp, BmpProvincePixel};
use province_map::color::Color;
use province_map::point::Point;
use province_map::raster::Raster;

const SEA: Color = Color { r: 128, g: 128, b: 128 };
const RED: Color = Color { r: 255, g: 0, b: 0 };
const BLUE: Color = Color { r: 0, g: 0, b: 255 };

fn image(width: u32, height: u32, pixels: &[Color]) -> Raster {
    let mut channels = Vec::new();
    for p in pixels {
        channels.extend_from_slice(&[p.r, p.g, p.b, 255]);
    }
    Raster::from_raw(width, height, channels).unwrap()
}

#[test]
fn raster_reads_back_what_it_was_given() {
    let img = image(2, 2, &[RED, BLUE, SEA, RED]);
    assert_eq!(img.width(), 2);
    assert_eq!(img.height(), 2);
    assert_eq!(img.pixel_color(0, 0), RED);
    assert_eq!(img.pixel_color(1, 0), BLUE);
    assert_eq!(img.pixel_color(0, 1), SEA);
    assert_eq!(img.pixel_color(1, 1), RED);
}

#[test]
fn raster_reads_rows_of_uneven_images() {
    let img = image(3, 2, &[RED, RED, BLUE, SEA, BLUE, RED]);
    assert_eq!(img.width(), 3);
    assert_eq!(img.height(), 2);
    assert_eq!(img.pixel_color(2, 0), BLUE);
    assert_eq!(img.pixel_color(0, 1), SEA);
    assert_eq!(img.pixel_color(1, 1), BLUE);
    assert_eq!(img.pixel_color(2, 1), RED);
}

#[test]
fn raster_refuses_a_short_buffer() {
    assert!(Raster::from_raw(2, 2, vec![0u8; 15]).is_none());
    assert!(Raster::from_raw(2, 2, vec![0u8; 16]).is_some());
    assert!(Raster::from_raw(0, 5, Vec::new()).is_some());
}

#[test]
fn gray_is_equal_channels() {
    assert!(SEA.is_gray());
    assert!(Color { r: 0, g: 0, b: 0 }.is_gray());
    assert!(Color { r: 255, g: 255, b: 255 }.is_gray());
    assert!(!RED.is_gray());
    assert!(!Color { r: 7, g: 7, b: 8 }.is_gray());
    assert!(BmpProvincePixel::new(0, 0, SEA).is_gray());
    assert!(!BmpProvincePixel::new(0, 0, BLUE).is_gray());
}

#[test]
fn single_color_image_has_no_border_points() {
    let img = image(3, 3, &[RED; 9]);
    let found = provinces_from_bmp(&img);
    assert!(found.buckets.is_empty());
}

#[test]
fn all_sea_image_has_no_border_points() {
    let img = image(2, 3, &[SEA; 6]);
    assert!(provinces_from_bmp(&img).buckets.is_empty());
}

#[test]
fn empty_image_has_no_border_points() {
    let img = Raster::from_raw(0, 0, Vec::new()).unwrap();
    assert!(provinces_from_bmp(&img).buckets.is_empty());
}

#[test]
fn dot_in_the_sea_is_one_border_point() {
    let img = image(3, 3, &[SEA, SEA, SEA, SEA, RED, SEA, SEA, SEA, SEA]);
    let found = provinces_from_bmp(&img);
    assert_eq!(found.buckets.len(), 1);
    assert_eq!(found.buckets[0].color, RED);
    assert_eq!(found.buckets[0].points, vec![Point { x: 0, y: 1 }]);
}

#[test]
fn two_provinces_meet_in_the_middle() {
    let img = image(4, 2, &[RED, RED, BLUE, BLUE, RED, RED, BLUE, BLUE]);
    let found = provinces_from_bmp(&img);
    assert_eq!(found.buckets.len(), 2);
    assert_eq!(found.buckets[0].color, RED);
    assert_eq!(found.buckets[0].points, vec![Point { x: -1, y: 1 }, Point { x: -1, y: 0 }]);
    assert_eq!(found.buckets[1].color, BLUE);
    assert_eq!(found.buckets[1].points, vec![Point { x: 0, y: 1 }, Point { x: 0, y: 0 }]);
}

#[test]
fn groups_come_in_order_of_first_occurrence() {
    let img = image(3, 1, &[BLUE, RED, BLUE]);
    let found = provinces_from_bmp(&img);
    assert_eq!(found.buckets.len(), 2);
    assert_eq!(found.buckets[0].color, BLUE);
    assert_eq!(found.buckets[0].points, vec![Point { x: -1, y: 1 }, Point { x: 1, y: 1 }]);
    assert_eq!(found.buckets[1].color, RED);
    assert_eq!(found.buckets[1].points, vec![Point { x: 0, y: 1 }]);
}

#[test]
fn world_position_is_centred_and_flipped() {
    let img = image(5, 4, &[SEA; 20]);
    assert_eq!(BmpProvincePixel::new(0, 0, RED).get_world_pos(&img), Point { x: -2, y: 2 });
    assert_eq!(BmpProvincePixel::new(4, 3, RED).get_world_pos(&img), Point { x: 2, y: -1 });
    assert_eq!(BmpProvincePixel::new(2, 2, RED).get_world_pos(&img), Point { x: 0, y: 0 });
}

#[test]
fn neighbors_stop_at_the_rim() {
    let img = image(3, 2, &[SEA; 6]);
    let corner = BmpProvincePixel::new(0, 0, RED).get_neighbors(&img);
    assert_eq!(corner[0], (Some(0), None));
    assert_eq!(corner[1], (Some(1), Some(0)));
    assert_eq!(corner[2], (Some(0), Some(1)));
    assert_eq!(corner[3], (None, Some(0)));
    let far = BmpProvincePixel::new(2, 1, RED).get_neighbors(&img);
    assert_eq!(far[0], (Some(2), Some(0)));
    assert_eq!(far[1], (None, Some(1)));
    assert_eq!(far[2], (Some(2), None));
    assert_eq!(far[3], (Some(1), Some(1)));
}

#[test]
fn rim_pixel_among_equals_is_no_border() {
    let img = image(2, 2, &[RED, RED, RED, BLUE]);
    assert!(!BmpProvincePixel::new(0, 0, RED).is_limit_of_a_province(&img));
    assert!(BmpProvincePixel::new(1, 0, RED).is_limit_of_a_province(&img));
    assert!(BmpProvincePixel::new(0, 1, RED).is_limit_of_a_province(&img));
    assert!(BmpProvincePixel::new(1, 1, BLUE).is_limit_of_a_province(&img));
}

#[test]
fn sea_neighbor_makes_a_border() {
    let img = image(2, 1, &[RED, SEA]);
    let found = provinces_from_bmp(&img);
    assert_eq!(found.buckets.len(), 1);
    assert_eq!(found.buckets[0].color, RED);
    assert_eq!(found.buckets[0].points, vec![Point { x: -1, y: 1 }]);
}

#[test]
fn alpha_plays_no_part() {
    let channels = vec![255, 0, 0, 255, 255, 0, 0, 10];
    let img = Raster::from_raw(2, 1, channels).unwrap();
    assert!(provinces_from_bmp(&img).buckets.is_empty());
}

#[test]
fn find_gives_the_group_of_a_color() {
    let img = image(3, 1, &[BLUE, RED, BLUE]);
    let found = provinces_from_bmp(&img);
    assert_eq!(found.find(BLUE), Some(0));
    assert_eq!(found.find(RED), Some(1));
    assert_eq!(found.find(SEA), None);
}
