//! Provinces: named outlines, built from a map image and an identifier
//! table, and the test of which of them a cursor is on.

use vstd::prelude::*;
use crate::border::{provinces_from_bmp, BorderSet};
use crate::color::Color;
use crate::contain::{inside, is_point_inside_polygon, Cursor};
use crate::key::KeyError;
use crate::outline_laws::lemma_outline_takes_from_points;
use crate::point::{all_in_reach, Point};
use crate::raster::Raster;
use crate::sequence::{outline, outlined, sequence_points, sort_provinces_points};
use crate::table::{
    all_keys_valid,
    deserialize_colors_to_tags,
    entry_texts,
    first_bad_key,
    refuses,
    table_of,
    IdentifierTable,
};

verus! {

/// A province: its identifier and the points of its outline, in order. The
/// outline is closed: its last point is joined to its first.
#[derive(Debug)]
pub struct Province {
    pub identifier: String,
    pub points: Vec<Point>,
}

impl View for Province {
    type V = (Seq<char>, Seq<Point>);

    /// The identifier and the outline.
    open spec fn view(&self) -> (Seq<char>, Seq<Point>) {
        (self.identifier@, self.points@)
    }
}

/// The provinces of `list` as identifiers and outlines.
pub open spec fn views(list: Seq<Province>) -> Seq<(Seq<char>, Seq<Point>)> {
    Seq::new(list.len(), |i: int| list[i]@)
}

/// Whether every point of every outline lies where a pixel of some image can
/// lie.
pub open spec fn outlines_in_reach(list: Seq<(Seq<char>, Seq<Point>)>) -> bool {
    forall|i: int| 0 <= i < list.len() ==> all_in_reach((#[trigger] list[i]).1)
}

/// The groups of `groups` whose colour has an identifier in `table`, in
/// order, each under that identifier. A group whose colour has none is left
/// out.
pub open spec fn resolved(
    groups: Seq<(Color, Seq<Point>)>,
    table: Map<Color, Seq<char>>,
) -> Seq<(Seq<char>, Seq<Point>)>
    decreases groups.len(),
{
    if groups.len() == 0 {
        Seq::empty()
    } else if table.contains_key(groups.last().0) {
        resolved(groups.drop_last(), table).push((table[groups.last().0], groups.last().1))
    } else {
        resolved(groups.drop_last(), table)
    }
}

/// `list` with the points of each entry ordered into an outline.
pub open spec fn with_outlines(list: Seq<(Seq<char>, Seq<Point>)>) -> Seq<
    (Seq<char>, Seq<Point>),
> {
    Seq::new(list.len(), |i: int| (list[i].0, outline(list[i].1)))
}

/// The provinces that the image `img` shows and `table` names: the border
/// points of each named colour, ordered into an outline.
pub open spec fn provinces_of(img: &Raster, table: Map<Color, Seq<char>>) -> Seq<
    (Seq<char>, Seq<Point>),
> {
    with_outlines(resolved(crate::border::grouped(img.border_entries()), table))
}

/// Naming groups moves no point: where every point of `groups` is in reach,
/// so is every point of the provinces made of them.
pub proof fn lemma_resolved_in_reach(groups: Seq<(Color, Seq<Point>)>, table: Map<Color, Seq<char>>)
    requires
        forall|i: int| 0 <= i < groups.len() ==> all_in_reach((#[trigger] groups[i]).1),
    ensures
        outlines_in_reach(resolved(groups, table)),
    decreases groups.len(),
{
    if groups.len() > 0 {
        assert forall|i: int| 0 <= i < groups.drop_last().len() implies all_in_reach(
            (#[trigger] groups.drop_last()[i]).1,
        ) by {
            assert(groups.drop_last()[i] == groups[i]);
        }
        lemma_resolved_in_reach(groups.drop_last(), table);
        assert(all_in_reach(groups[groups.len() - 1].1));
    }
}

/// Ordering into outlines moves no point: where every point of `list` is in
/// reach, so is every point of its outlines.
pub proof fn lemma_outlines_in_reach(list: Seq<(Seq<char>, Seq<Point>)>)
    requires
        outlines_in_reach(list),
    ensures
        outlines_in_reach(with_outlines(list)),
{
    assert forall|i: int| 0 <= i < list.len() implies all_in_reach(
        (#[trigger] with_outlines(list)[i]).1,
    ) by {
        assert(all_in_reach(list[i].1));
        lemma_outline_takes_from_points(list[i].1);
    }
}

/// A copy of `points`.
fn copy_points(points: &Vec<Point>) -> (copy: Vec<Point>)
    ensures
        copy@ == points@,
{
    let mut copy: Vec<Point> = Vec::new();
    let mut i: usize = 0;
    while i < points.len()
        invariant
            0 <= i <= points@.len(),
            copy@ == points@.take(i as int),
        decreases points@.len() - i,
    {
        copy.push(points[i]);
        proof {
            assert(points@.take(i + 1) =~= points@.take(i as int).push(points@[i as int]));
        }
        i += 1;
    }
    proof {
        assert(points@.take(i as int) =~= points@);
    }
    copy
}

/// Names the groups of border points: each group whose colour has an
/// identifier in `table` becomes a province under that identifier, with the
/// points as they are. A group whose colour has none is dropped without
/// complaint.
pub fn resolve(borders: &BorderSet, table: &IdentifierTable) -> (named: Vec<Province>)
    ensures
        views(named@) == resolved(borders@, table@),
{
    let mut named: Vec<Province> = Vec::new();
    let mut i: usize = 0;
    while i < borders.buckets.len()
        invariant
            0 <= i <= borders@.len(),
            views(named@) == resolved(borders@.take(i as int), table@),
        decreases borders@.len() - i,
    {
        proof {
            assert(borders@.take(i + 1).drop_last() =~= borders@.take(i as int));
            assert(borders@.take(i + 1).last() == borders@[i as int]);
        }
        let ghost before = views(named@);
        match table.get(borders.buckets[i].color) {
            Some(tag) => {
                let province = Province {
                    identifier: tag.clone(),
                    points: copy_points(&borders.buckets[i].points),
                };
                named.push(province);
                proof {
                    assert(views(named@) =~= before.push(
                        (table@[borders@[i as int].0], borders@[i as int].1),
                    ));
                }
            },
            None => {},
        }
        i += 1;
    }
    proof {
        assert(borders@.take(i as int) =~= borders@);
    }
    named
}

/// Finds the border points of the image, groups them by colour and orders
/// each group into an outline.
pub fn provinces_from_bmp_startup_system(img: &Raster) -> (borders: BorderSet)
    ensures
        borders@ == outlined(crate::border::grouped(img.border_entries())),
        borders.wf(),
        borders.in_reach(),
{
    let mut borders = provinces_from_bmp(img);
    let ghost found = borders@;
    sort_provinces_points(&mut borders);
    proof {
        assert(crate::border::group_colors(borders@) =~= crate::border::group_colors(found));
        assert forall|i: int| 0 <= i < borders@.len() implies all_in_reach(
            (#[trigger] borders@[i]).1,
        ) by {
            assert(all_in_reach(found[i].1));
            lemma_outline_takes_from_points(found[i].1);
        }
    }
    borders
}

/// Builds the provinces of a map: the border points of the image are grouped
/// by colour, the groups named through `table`, and the points of each named
/// group ordered into an outline.
pub fn provinces_of_map(img: &Raster, table: &IdentifierTable) -> (provinces: Vec<Province>)
    ensures
        views(provinces@) == provinces_of(img, table@),
        outlines_in_reach(views(provinces@)),
{
    let borders = provinces_from_bmp(img);
    let mut provinces = resolve(&borders, table);
    let ghost named = views(provinces@);
    proof {
        assert forall|i: int| 0 <= i < borders@.len() implies all_in_reach(
            (#[trigger] borders@[i]).1,
        ) by {}
        lemma_resolved_in_reach(borders@, table@);
        lemma_outlines_in_reach(named);
    }
    let mut i: usize = 0;
    while i < provinces.len()
        invariant
            0 <= i <= provinces@.len(),
            provinces@.len() == named.len(),
            forall|k: int| 0 <= k < i ==> (#[trigger] provinces@[k])@ == with_outlines(named)[k],
            forall|k: int| i <= k < provinces@.len() ==> (#[trigger] provinces@[k])@ == named[k],
        decreases provinces@.len() - i,
    {
        let ghost before = provinces@;
        sequence_points(&mut provinces[i].points);
        proof {
            assert(provinces@[i as int].identifier == before[i as int].identifier);
            assert(forall|k: int|
                0 <= k < before.len() && k != i ==> provinces@[k] == before[k]);
        }
        i += 1;
    }
    proof {
        assert(views(provinces@) =~= with_outlines(named));
    }
    provinces
}

/// Builds the provinces of a map from its image and the entries of its
/// configuration, each a colour key and an identifier. A key that is not a
/// colour key is refused and no province is built.
pub fn map_startup_sytem(img: &Raster, raw: &Vec<(String, String)>) -> (built: Result<
    Vec<Province>,
    KeyError,
>)
    ensures
        match built {
            Ok(provinces) => all_keys_valid(entry_texts(raw@)) && views(provinces@)
                == provinces_of(img, table_of(entry_texts(raw@))) && outlines_in_reach(
                views(provinces@),
            ),
            Err(error) => exists|i: int|
                first_bad_key(entry_texts(raw@), i) && refuses(
                    error,
                    #[trigger] entry_texts(raw@)[i].0,
                ),
        },
{
    match deserialize_colors_to_tags(raw) {
        Ok(table) => Ok(provinces_of_map(img, &table)),
        Err(error) => Err(error),
    }
}

/// Which provinces the cursor is on: for each province of `provinces`,
/// whether `cursor` lies inside its outline. Without a cursor nothing is to
/// change and the result is `None`.
pub fn province_hovered_update_system(cursor: Option<Cursor>, provinces: &Vec<Province>) -> (hovered:
    Option<Vec<bool>>)
    requires
        cursor matches Some(at) ==> at.wf(),
        outlines_in_reach(views(provinces@)),
    ensures
        cursor.is_none() <==> hovered.is_none(),
        hovered matches Some(flags) ==> flags@.len() == provinces@.len() && forall|i: int|
            0 <= i < provinces@.len() ==> #[trigger] flags@[i] == inside(
                cursor.unwrap(),
                provinces@[i].points@,
            ),
{
    match cursor {
        None => None,
        Some(at) => {
            let mut flags: Vec<bool> = Vec::new();
            let mut i: usize = 0;
            while i < provinces.len()
                invariant
                    at.wf(),
                    outlines_in_reach(views(provinces@)),
                    0 <= i <= provinces@.len(),
                    flags@.len() == i,
                    forall|k: int|
                        0 <= k < i ==> #[trigger] flags@[k] == inside(at, provinces@[k].points@),
                decreases provinces@.len() - i,
            {
                proof {
                    assert(views(provinces@)[i as int].1 == provinces@[i as int].points@);
                }
                let is_inside = is_point_inside_polygon(at, &provinces[i].points);
                flags.push(is_inside);
                i += 1;
            }
            Some(flags)
        },
    }
}

/// Which provinces the cursor is on; see `province_hovered_update_system`.
pub fn map_update_system(cursor: Option<Cursor>, provinces: &Vec<Province>) -> (hovered: Option<
    Vec<bool>,
>)
    requires
        cursor matches Some(at) ==> at.wf(),
        outlines_in_reach(views(provinces@)),
    ensures
        cursor.is_none() <==> hovered.is_none(),
        hovered matches Some(flags) ==> flags@.len() == provinces@.len() && forall|i: int|
            0 <= i < provinces@.len() ==> #[trigger] flags@[i] == inside(
                cursor.unwrap(),
                provinces@[i].points@,
            ),
{
    province_hovered_update_system(cursor, provinces)
}

} // verus!
