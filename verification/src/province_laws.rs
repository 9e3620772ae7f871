//! What holds of the provinces of every map.

use vstd::prelude::*;
use crate::border::{group_colors, grouped};
use crate::color::Color;
use crate::point::Point;
use crate::province::{provinces_of, resolved};
use crate::raster::{raster_height, raster_width, Raster};

verus! {

/// A colour without an identifier makes no province: leaving its group out
/// before the groups are named changes nothing.
pub proof fn lemma_unmapped_group_is_dropped(
    groups: Seq<(Color, Seq<Point>)>,
    table: Map<Color, Seq<char>>,
    i: int,
)
    requires
        0 <= i < groups.len(),
        !table.contains_key(groups[i].0),
    ensures
        resolved(groups.remove(i), table) == resolved(groups, table),
    decreases groups.len(),
{
    if i == groups.len() - 1 {
        assert(groups.remove(i) =~= groups.drop_last());
    } else {
        assert(groups.remove(i).drop_last() =~= groups.drop_last().remove(i));
        assert(groups.remove(i).last() == groups.last());
        lemma_unmapped_group_is_dropped(groups.drop_last(), table, i);
    }
}

/// Where no colour has an identifier there are no provinces.
pub proof fn lemma_empty_table_names_nothing(groups: Seq<(Color, Seq<Point>)>)
    ensures
        resolved(groups, Map::<Color, Seq<char>>::empty()).len() == 0,
    decreases groups.len(),
{
    if groups.len() > 0 {
        lemma_empty_table_names_nothing(groups.drop_last());
    }
}

/// There are as many provinces as there are colours that both have an
/// identifier and have a group, where no colour has two groups.
pub proof fn lemma_one_province_per_named_color(
    groups: Seq<(Color, Seq<Point>)>,
    table: Map<Color, Seq<char>>,
)
    requires
        group_colors(groups).no_duplicates(),
    ensures
        group_colors(groups).to_set().intersect(table.dom()).finite(),
        resolved(groups, table).len() == group_colors(groups).to_set().intersect(table.dom()).len(),
    decreases groups.len(),
{
    let colors = group_colors(groups);
    let named = colors.to_set().intersect(table.dom());
    if groups.len() == 0 {
        assert(named =~= Set::<Color>::empty());
    } else {
        let rest = groups.drop_last();
        let last = groups.last().0;
        let before = group_colors(rest);
        assert(before =~= colors.drop_last());
        assert(colors.last() == last);
        assert(before.no_duplicates());
        lemma_one_province_per_named_color(rest, table);
        let named_before = before.to_set().intersect(table.dom());
        assert(!before.contains(last)) by {
            if before.contains(last) {
                let k = choose|k: int| 0 <= k < before.len() && before[k] == last;
                assert(colors[k] == colors[colors.len() - 1]);
            }
        }
        assert forall|c: Color| colors.contains(c) <==> (before.contains(c) || c == last) by {
            if before.contains(c) {
                let k = choose|k: int| 0 <= k < before.len() && before[k] == c;
                assert(colors[k] == c);
            }
            if colors.contains(c) {
                let k = choose|k: int| 0 <= k < colors.len() && colors[k] == c;
                if k < before.len() {
                    assert(before[k] == c);
                }
            }
        }
        if table.contains_key(last) {
            assert(named =~= named_before.insert(last));
        } else {
            assert(named =~= named_before);
        }
    }
}

/// The rows of two images that show the same colours give the same entries.
proof fn lemma_same_rows(a: &Raster, b: &Raster, y: int, upto: int)
    requires
        raster_width(a) == raster_width(b),
        raster_height(a) == raster_height(b),
        forall|x: int, y: int| a.has_pixel(x, y) ==> a.color_at(x, y) == b.color_at(x, y),
        0 <= y < raster_height(a),
        upto <= raster_width(a),
    ensures
        a.row_entries(y, upto) == b.row_entries(y, upto),
    decreases upto,
{
    if upto > 0 {
        lemma_same_rows(a, b, y, upto - 1);
        let x = upto - 1;
        assert(a.has_pixel(x, y));
        assert(a.has_pixel(x, y - 1) ==> a.color_at(x, y - 1) == b.color_at(x, y - 1));
        assert(a.has_pixel(x + 1, y) ==> a.color_at(x + 1, y) == b.color_at(x + 1, y));
        assert(a.has_pixel(x, y + 1) ==> a.color_at(x, y + 1) == b.color_at(x, y + 1));
        assert(a.has_pixel(x - 1, y) ==> a.color_at(x - 1, y) == b.color_at(x - 1, y));
        assert(a.border_pixel(x, y) == b.border_pixel(x, y));
    }
}

/// Two images that show the same colours give the same entries.
proof fn lemma_same_scan(a: &Raster, b: &Raster, rows: int)
    requires
        raster_width(a) == raster_width(b),
        raster_height(a) == raster_height(b),
        forall|x: int, y: int| a.has_pixel(x, y) ==> a.color_at(x, y) == b.color_at(x, y),
        rows <= raster_height(a),
    ensures
        a.scan_entries(rows) == b.scan_entries(rows),
    decreases rows,
{
    if rows > 0 {
        lemma_same_scan(a, b, rows - 1);
        lemma_same_rows(a, b, rows - 1, raster_width(a) as int);
    }
}

/// The provinces depend on the size of the image, the colours of its pixels
/// and the table, and on nothing else: two images of one size that show the
/// same colours give, with one table, the same provinces, point for point.
pub proof fn lemma_same_map_same_provinces(a: &Raster, b: &Raster, table: Map<Color, Seq<char>>)
    requires
        raster_width(a) == raster_width(b),
        raster_height(a) == raster_height(b),
        forall|x: int, y: int| a.has_pixel(x, y) ==> a.color_at(x, y) == b.color_at(x, y),
    ensures
        grouped(a.border_entries()) == grouped(b.border_entries()),
        provinces_of(a, table) == provinces_of(b, table),
{
    lemma_same_scan(a, b, raster_height(a) as int);
}

} // verus!
