//! Finding the pixels on the edge of each province and grouping them by
//! colour.

use vstd::prelude::*;
use crate::color::Color;
use crate::point::{all_in_reach, Point};
use crate::raster::{raster_height, raster_width, Raster};

verus! {

/// One pixel of the map image: its column, its row and its colour.
#[derive(Clone, Copy, Debug)]
pub struct BmpProvincePixel {
    pub x: u32,
    pub y: u32,
    pub color: Color,
}

impl Raster {
    /// Whether (`nx`, `ny`) is a pixel of the image whose colour is not
    /// `color`.
    pub open spec fn differs_at(&self, color: Color, nx: int, ny: int) -> bool {
        self.has_pixel(nx, ny) && self.color_at(nx, ny) != color
    }

    /// Whether a pixel of colour `color` at (`x`, `y`) lies on a border: one
    /// of the pixels above, right of, below or left of it exists and has
    /// another colour. Neighbours outside the image do not count, so a pixel
    /// on the rim of the image is not a border for that reason alone.
    pub open spec fn borders(&self, color: Color, x: int, y: int) -> bool {
        ||| self.differs_at(color, x, y - 1)
        ||| self.differs_at(color, x + 1, y)
        ||| self.differs_at(color, x, y + 1)
        ||| self.differs_at(color, x - 1, y)
    }

    /// Whether the pixel at (`x`, `y`) is land on the border of its province.
    pub open spec fn border_pixel(&self, x: int, y: int) -> bool {
        !self.color_at(x, y).gray() && self.borders(self.color_at(x, y), x, y)
    }

    /// The map position of the pixel at (`x`, `y`): the image is centred on
    /// the origin and its rows are counted downwards.
    pub open spec fn world_pos(&self, x: int, y: int) -> Point {
        Point {
            x: (x - raster_width(self) / 2) as i64,
            y: ((raster_height(self) - y) - raster_height(self) / 2) as i64,
        }
    }
}

impl BmpProvincePixel {
    /// The pixel at column `x` of row `y`, of colour `color`.
    pub fn new(x: u32, y: u32, color: Color) -> (pixel: BmpProvincePixel)
        ensures
            pixel.x == x,
            pixel.y == y,
            pixel.color == color,
    {
        BmpProvincePixel { x, y, color }
    }

    /// Whether the pixel is sea.
    pub fn is_gray(&self) -> (gray: bool)
        ensures
            gray == self.color.gray(),
    {
        self.color.is_gray()
    }

    /// The places above, right of, below and left of the pixel, in that
    /// order. A coordinate is `None` where it would leave the image.
    pub fn get_neighbors(&self, img: &Raster) -> (around: [(Option<u32>, Option<u32>); 4])
        ensures
            around[0] == (Some(self.x), if self.y >= 1 { Some((self.y - 1) as u32) } else { None }),
            around[1] == (
                if self.x + 1 < raster_width(img) { Some((self.x + 1) as u32) } else { None },
                Some(self.y),
            ),
            around[2] == (
                Some(self.x),
                if self.y + 1 < raster_height(img) { Some((self.y + 1) as u32) } else { None },
            ),
            around[3] == (if self.x >= 1 { Some((self.x - 1) as u32) } else { None }, Some(self.y)),
    {
        let width: u32 = img.width();
        let height: u32 = img.height();
        let up: Option<u32> = self.y.checked_sub(1);
        let right: Option<u32> = match self.x.checked_add(1) {
            Some(v) => if v < width { Some(v) } else { None },
            None => None,
        };
        let down: Option<u32> = match self.y.checked_add(1) {
            Some(v) => if v < height { Some(v) } else { None },
            None => None,
        };
        let left: Option<u32> = self.x.checked_sub(1);
        [(Some(self.x), up), (right, Some(self.y)), (Some(self.x), down), (left, Some(self.y))]
    }

    /// The map position of the pixel.
    pub fn get_world_pos(&self, img: &Raster) -> (pos: Point)
        ensures
            pos == img.world_pos(self.x as int, self.y as int),
            pos.in_reach(),
    {
        let width: i64 = img.width() as i64;
        let height: i64 = img.height() as i64;
        Point { x: self.x as i64 - width / 2, y: (height - self.y as i64) - height / 2 }
    }

    /// Whether the pixel lies on a border: whether a neighbour inside the
    /// image has another colour than the pixel.
    pub fn is_limit_of_a_province(&self, img: &Raster) -> (limit: bool)
        requires
            img.has_pixel(self.x as int, self.y as int),
        ensures
            limit == img.borders(self.color, self.x as int, self.y as int),
    {
        let around = self.get_neighbors(img);
        let mut i: usize = 0;
        while i < 4
            invariant
                0 <= i <= 4,
                img.has_pixel(self.x as int, self.y as int),
                around[0] == (Some(self.x), if self.y >= 1 { Some((self.y - 1) as u32) } else { None }),
                around[1] == (
                    if self.x + 1 < raster_width(img) { Some((self.x + 1) as u32) } else { None },
                    Some(self.y),
                ),
                around[2] == (
                    Some(self.x),
                    if self.y + 1 < raster_height(img) { Some((self.y + 1) as u32) } else { None },
                ),
                around[3] == (if self.x >= 1 { Some((self.x - 1) as u32) } else { None }, Some(self.y)),
                i >= 1 ==> !img.differs_at(self.color, self.x as int, self.y - 1),
                i >= 2 ==> !img.differs_at(self.color, self.x + 1, self.y as int),
                i >= 3 ==> !img.differs_at(self.color, self.x as int, self.y + 1),
                i >= 4 ==> !img.differs_at(self.color, self.x - 1, self.y as int),
            decreases 4 - i,
        {
            let place = around[i];
            if let (Some(nx), Some(ny)) = place {
                let neighbor_color = img.pixel_color(nx, ny);
                if neighbor_color != self.color {
                    return true;
                }
            }
            i += 1;
        }
        false
    }
}

/// The border points of one colour.
#[derive(Debug)]
pub struct Bucket {
    pub color: Color,
    pub points: Vec<Point>,
}

/// The border points of an image, grouped by colour.
#[derive(Debug)]
pub struct BorderSet {
    pub buckets: Vec<Bucket>,
}

impl View for BorderSet {
    type V = Seq<(Color, Seq<Point>)>;

    /// The groups in order, each as its colour and its points.
    open spec fn view(&self) -> Seq<(Color, Seq<Point>)> {
        Seq::new(self.buckets@.len(), |i: int| (self.buckets@[i].color, self.buckets@[i].points@))
    }
}

/// The colours of `groups`, in order.
pub open spec fn group_colors(groups: Seq<(Color, Seq<Point>)>) -> Seq<Color> {
    Seq::new(groups.len(), |i: int| groups[i].0)
}

impl BorderSet {
    /// Whether no colour has two groups.
    pub open spec fn wf(&self) -> bool {
        group_colors(self@).no_duplicates()
    }

    /// Whether every point lies where a pixel of some image can lie.
    pub open spec fn in_reach(&self) -> bool {
        forall|i: int| 0 <= i < self@.len() ==> all_in_reach((#[trigger] self@[i]).1)
    }

    /// The index of the first group of `color`, if there is one.
    pub fn find(&self, color: Color) -> (at: Option<usize>)
        ensures
            match at {
                Some(i) => {
                    &&& i < self@.len()
                    &&& self@[i as int].0 == color
                    &&& forall|k: int| 0 <= k < i ==> (#[trigger] self@[k]).0 != color
                },
                None => !group_colors(self@).contains(color),
            },
    {
        let mut i: usize = 0;
        while i < self.buckets.len()
            invariant
                0 <= i <= self.buckets@.len(),
                forall|k: int| 0 <= k < i ==> (#[trigger] self@[k]).0 != color,
            decreases self.buckets@.len() - i,
        {
            if self.buckets[i].color == color {
                return Some(i);
            }
            i += 1;
        }
        None
    }
}

/// The points that `entries` gives for `color`, in the order of `entries`.
pub open spec fn points_of(entries: Seq<(Color, Point)>, color: Color) -> Seq<Point>
    decreases entries.len(),
{
    if entries.len() == 0 {
        Seq::empty()
    } else if entries.last().0 == color {
        points_of(entries.drop_last(), color).push(entries.last().1)
    } else {
        points_of(entries.drop_last(), color)
    }
}

/// The colours that occur in `entries`, each once, in the order in which
/// they first occur.
pub open spec fn colors_of(entries: Seq<(Color, Point)>) -> Seq<Color>
    decreases entries.len(),
{
    if entries.len() == 0 {
        Seq::empty()
    } else if colors_of(entries.drop_last()).contains(entries.last().0) {
        colors_of(entries.drop_last())
    } else {
        colors_of(entries.drop_last()).push(entries.last().0)
    }
}

/// `entries` grouped by colour: one group for each colour that occurs, in the
/// order in which the colours first occur, each holding the points of its
/// colour in the order of `entries`.
pub open spec fn grouped(entries: Seq<(Color, Point)>) -> Seq<(Color, Seq<Point>)> {
    Seq::new(
        colors_of(entries).len(),
        |i: int| (colors_of(entries)[i], points_of(entries, colors_of(entries)[i])),
    )
}

impl Raster {
    /// The border pixels among the first `upto` pixels of row `y`, from left
    /// to right, each as its colour and its map position.
    pub open spec fn row_entries(&self, y: int, upto: int) -> Seq<(Color, Point)>
        decreases upto,
    {
        if upto <= 0 {
            Seq::empty()
        } else if self.border_pixel(upto - 1, y) {
            self.row_entries(y, upto - 1).push(
                (self.color_at(upto - 1, y), self.world_pos(upto - 1, y)),
            )
        } else {
            self.row_entries(y, upto - 1)
        }
    }

    /// The border pixels of the first `rows` rows, row after row from the
    /// top.
    pub open spec fn scan_entries(&self, rows: int) -> Seq<(Color, Point)>
        decreases rows,
    {
        if rows <= 0 {
            Seq::empty()
        } else {
            self.scan_entries(rows - 1) + self.row_entries(rows - 1, raster_width(self) as int)
        }
    }

    /// The border pixels of the whole image in reading order.
    pub open spec fn border_entries(&self) -> Seq<(Color, Point)> {
        self.scan_entries(raster_height(self) as int)
    }
}

/// What one more entry adds to the colours and to the points of each colour.
proof fn lemma_one_more_entry(entries: Seq<(Color, Point)>, entry: (Color, Point))
    ensures
        colors_of(entries.push(entry)) == if colors_of(entries).contains(entry.0) {
            colors_of(entries)
        } else {
            colors_of(entries).push(entry.0)
        },
        forall|c: Color|
            #[trigger] points_of(entries.push(entry), c) == if c == entry.0 {
                points_of(entries, c).push(entry.1)
            } else {
                points_of(entries, c)
            },
{
    assert(entries.push(entry).drop_last() =~= entries);
}

/// Finds the border pixels of the image and groups their map positions by
/// colour. A pixel counts when it is not sea and a neighbour inside the image
/// has another colour. The groups come in the order in which their colours
/// first occur when the image is read row after row from the top, and the
/// points of a group in that reading order.
pub fn provinces_from_bmp(img: &Raster) -> (found: BorderSet)
    ensures
        found@ == grouped(img.border_entries()),
        found.wf(),
        found.in_reach(),
{
    let width: u32 = img.width();
    let height: u32 = img.height();
    let mut found = BorderSet { buckets: Vec::new() };
    let ghost mut done: Seq<(Color, Point)> = Seq::empty();
    let mut y: u32 = 0;
    while y < height
        invariant
            width == raster_width(img),
            height == raster_height(img),
            0 <= y <= height,
            done == img.scan_entries(y as int),
            group_colors(found@) == colors_of(done),
            forall|i: int|
                0 <= i < found@.len() ==> (#[trigger] found@[i]).1 == points_of(done, found@[i].0),
            found.wf(),
            found.in_reach(),
        decreases height - y,
    {
        let mut x: u32 = 0;
        while x < width
            invariant
                width == raster_width(img),
                height == raster_height(img),
                0 <= y < height,
                0 <= x <= width,
                done == img.scan_entries(y as int) + img.row_entries(y as int, x as int),
                group_colors(found@) == colors_of(done),
                forall|i: int|
                    0 <= i < found@.len() ==> (#[trigger] found@[i]).1 == points_of(
                        done,
                        found@[i].0,
                    ),
                found.wf(),
                found.in_reach(),
            decreases width - x,
        {
            let pixel = BmpProvincePixel::new(x, y, img.pixel_color(x, y));
            if !pixel.is_gray() && pixel.is_limit_of_a_province(img) {
                let pos = pixel.get_world_pos(img);
                let ghost before = found@;
                proof {
                    lemma_one_more_entry(done, (pixel.color, pos));
                    assert(img.scan_entries(y as int) + img.row_entries(y as int, x + 1)
                        =~= done.push((pixel.color, pos)));
                }
                match found.find(pixel.color) {
                    Some(i) => {
                        found.buckets[i].points.push(pos);
                        proof {
                            assert(found@ =~= before.update(
                                i as int,
                                (pixel.color, before[i as int].1.push(pos)),
                            ));
                            assert(group_colors(found@) =~= group_colors(before));
                            assert(group_colors(before)[i as int] == pixel.color);
                            assert forall|k: int| 0 <= k < found@.len() implies (#[trigger] found@[k]).1
                                == points_of(done.push((pixel.color, pos)), found@[k].0) by {
                                assert(before[k].1 == points_of(done, before[k].0));
                                assert(group_colors(before)[k] == before[k].0);
                            }
                        }
                    },
                    None => {
                        let mut points: Vec<Point> = Vec::new();
                        points.push(pos);
                        found.buckets.push(Bucket { color: pixel.color, points });
                        proof {
                            assert(found@ =~= before.push((pixel.color, seq![pos])));
                            assert(group_colors(found@) =~= group_colors(before).push(pixel.color));
                            lemma_absent_color_has_no_points(done, pixel.color);
                            assert(Seq::<Point>::empty().push(pos) =~= seq![pos]);
                            assert forall|k: int| 0 <= k < found@.len() implies (#[trigger] found@[k]).1
                                == points_of(done.push((pixel.color, pos)), found@[k].0) by {
                                if k < before.len() {
                                    assert(before[k].1 == points_of(done, before[k].0));
                                    assert(group_colors(before)[k] == before[k].0);
                                }
                            }
                        }
                    },
                }
                proof {
                    done = done.push((pixel.color, pos));
                }
            }
            x += 1;
        }
        y += 1;
    }
    proof {
        assert(found@ =~= grouped(done));
    }
    found
}

/// A colour that does not occur has no points.
proof fn lemma_absent_color_has_no_points(entries: Seq<(Color, Point)>, color: Color)
    requires
        !colors_of(entries).contains(color),
    ensures
        points_of(entries, color) == Seq::<Point>::empty(),
    decreases entries.len(),
{
    if entries.len() > 0 {
        let rest = colors_of(entries.drop_last());
        if rest.contains(entries.last().0) {
            lemma_absent_color_has_no_points(entries.drop_last(), color);
        } else {
            assert(rest.push(entries.last().0).last() == entries.last().0);
            assert(entries.last().0 != color);
            assert forall|k: int| 0 <= k < rest.len() implies rest[k] != color by {
                assert(rest.push(entries.last().0)[k] == rest[k]);
            }
            lemma_absent_color_has_no_points(entries.drop_last(), color);
        }
    }
}

} // verus!
