//! What holds of the border points of every image.

use vstd::prelude::*;
use crate::border::{colors_of, grouped, points_of};
use crate::color::Color;
use crate::point::Point;
use crate::raster::{raster_height, raster_width, Raster};

verus! {

/// A row without border pixels gives no entries.
proof fn lemma_row_without_borders(img: &Raster, y: int, upto: int)
    requires
        forall|x: int| 0 <= x < upto ==> !img.border_pixel(x, y),
    ensures
        img.row_entries(y, upto) == Seq::<(Color, Point)>::empty(),
    decreases upto,
{
    if upto > 0 {
        lemma_row_without_borders(img, y, upto - 1);
    }
}

/// Rows without border pixels give no entries.
proof fn lemma_rows_without_borders(img: &Raster, rows: int)
    requires
        rows <= raster_height(img),
        forall|x: int, y: int| img.has_pixel(x, y) ==> !img.border_pixel(x, y),
    ensures
        img.scan_entries(rows) == Seq::<(Color, Point)>::empty(),
    decreases rows,
{
    if rows > 0 {
        lemma_rows_without_borders(img, rows - 1);
        let y = rows - 1;
        assert forall|x: int| 0 <= x < raster_width(img) implies !#[trigger] img.border_pixel(
            x,
            y,
        ) by {
            assert(img.has_pixel(x, y));
        }
        lemma_row_without_borders(img, y, raster_width(img) as int);
        assert(img.scan_entries(rows) =~= Seq::<(Color, Point)>::empty());
    }
}

/// An image in which no land pixel has a neighbour of another colour has no
/// border points at all.
pub proof fn lemma_no_border_no_points(img: &Raster)
    requires
        forall|x: int, y: int|
            img.has_pixel(x, y) && !img.color_at(x, y).gray() ==> !img.borders(
                img.color_at(x, y),
                x,
                y,
            ),
    ensures
        img.border_entries() == Seq::<(Color, Point)>::empty(),
        grouped(img.border_entries()) == Seq::<(Color, Seq<Point>)>::empty(),
{
    lemma_rows_without_borders(img, raster_height(img) as int);
    assert(grouped(img.border_entries()) =~= Seq::<(Color, Seq<Point>)>::empty());
}

/// An image of one colour has no border points, whatever the colour and
/// although its pixels on the rim have fewer than four neighbours.
pub proof fn lemma_uniform_image_has_no_borders(img: &Raster, color: Color)
    requires
        forall|x: int, y: int| img.has_pixel(x, y) ==> img.color_at(x, y) == color,
    ensures
        grouped(img.border_entries()) == Seq::<(Color, Seq<Point>)>::empty(),
{
    lemma_no_border_no_points(img);
}

/// A land pixel beside the sea is a border pixel: a sea pixel among its
/// neighbours inside the image is enough.
pub proof fn lemma_land_by_the_sea_is_border(img: &Raster, x: int, y: int, nx: int, ny: int)
    requires
        img.has_pixel(x, y),
        img.has_pixel(nx, ny),
        (nx == x && (ny == y - 1 || ny == y + 1)) || (ny == y && (nx == x - 1 || nx == x + 1)),
        !img.color_at(x, y).gray(),
        img.color_at(nx, ny).gray(),
    ensures
        img.border_pixel(x, y),
{
}

/// Every colour that has a group occurs among the entries, and the other way
/// round; a group holds the points of its colour and is never empty.
pub proof fn lemma_groups_hold_their_points(entries: Seq<(Color, Point)>)
    ensures
        colors_of(entries).no_duplicates(),
        forall|c: Color|
            colors_of(entries).contains(c) <==> exists|k: int|
                0 <= k < entries.len() && (#[trigger] entries[k]).0 == c,
        forall|c: Color| colors_of(entries).contains(c) <==> #[trigger] points_of(entries, c).len() > 0,
    decreases entries.len(),
{
    if entries.len() > 0 {
        let rest = entries.drop_last();
        let last = entries.last();
        lemma_groups_hold_their_points(rest);
        let seen = colors_of(rest);
        assert forall|c: Color| colors_of(entries).contains(c) <==> (seen.contains(c) || c
            == last.0) by {
            if !seen.contains(last.0) {
                let more = seen.push(last.0);
                assert(more.last() == last.0);
                if seen.contains(c) {
                    let k = choose|k: int| 0 <= k < seen.len() && seen[k] == c;
                    assert(more[k] == c);
                }
                if more.contains(c) {
                    let k = choose|k: int| 0 <= k < more.len() && more[k] == c;
                    if k < seen.len() {
                        assert(seen[k] == c);
                    }
                }
            }
        }
        assert forall|c: Color|
            colors_of(entries).contains(c) <==> #[trigger] points_of(entries, c).len() > 0 by {
            assert(seen.contains(c) <==> points_of(rest, c).len() > 0);
        }
        assert forall|c: Color|
            colors_of(entries).contains(c) <==> exists|k: int|
                0 <= k < entries.len() && (#[trigger] entries[k]).0 == c by {
            if seen.contains(c) {
                let k = choose|k: int| 0 <= k < rest.len() && (#[trigger] rest[k]).0 == c;
                assert(entries[k].0 == c);
            }
            if c == last.0 {
                assert(entries[entries.len() - 1].0 == c);
            }
            if exists|k: int| 0 <= k < entries.len() && (#[trigger] entries[k]).0 == c {
                let k = choose|k: int| 0 <= k < entries.len() && (#[trigger] entries[k]).0 == c;
                if k < rest.len() {
                    assert(rest[k].0 == c);
                }
            }
        }
    }
}

} // verus!
