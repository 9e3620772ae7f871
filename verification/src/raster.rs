//! The decoded map image and what the crate reads from it.

use vstd::prelude::*;
use crate::color::Color;

verus! {

/// A decoded image with four channels per pixel, kept in an `RgbaImage` of
/// the `image` crate. Nothing inside it is visible to the proofs: they speak
/// of it through `raster_width`, `raster_height` and `raster_pixel`.
#[verifier::external_body]
pub struct Raster {
    inner: image::RgbaImage,
}

/// The number of pixel columns, as `ImageBuffer::width` reports it.
pub uninterp spec fn raster_width(img: &Raster) -> u32;

/// The number of pixel rows, as `ImageBuffer::height` reports it.
pub uninterp spec fn raster_height(img: &Raster) -> u32;

/// The four channels (red, green, blue, alpha) that `ImageBuffer::get_pixel`
/// reads at column `x` of row `y`.
pub uninterp spec fn raster_pixel(img: &Raster, x: u32, y: u32) -> (u8, u8, u8, u8);

/// Where the first channel of pixel (`x`, `y`) lies in a row-major buffer of
/// four-channel pixels that is `width` pixels wide.
pub open spec fn channel_offset(width: u32, x: u32, y: u32) -> int {
    (y * width + x) * 4
}

/// Whether a buffer of `len` channels holds a `width` by `height` image of
/// four-channel pixels whose size can be computed in a `usize`, the width
/// multiplied in first.
pub open spec fn fits(width: u32, height: u32, len: nat) -> bool {
    4 * width <= usize::MAX && 4 * width * height <= len
}

impl Raster {
    /// Whether every pixel of a `width` by `height` image reads as the four
    /// channels at its place in the row-major buffer `channels`.
    pub open spec fn reads_from(&self, width: u32, height: u32, channels: Seq<u8>) -> bool {
        forall|x: u32, y: u32|
            x < width && y < height ==> #[trigger] raster_pixel(self, x, y) == (
                channels[channel_offset(width, x, y)],
                channels[channel_offset(width, x, y) + 1],
                channels[channel_offset(width, x, y) + 2],
                channels[channel_offset(width, x, y) + 3],
            )
    }

    /// Calls `ImageBuffer::from_raw` on a row-major buffer of channels, four
    /// per pixel. That function refuses a buffer shorter than
    /// `4 * width * height` and a size that overflows `usize` on the way
    /// (it multiplies by the width first), and otherwise keeps the buffer as
    /// it is. Not proved: that the dimensions and pixels read back are the
    /// ones given here.
    #[verifier::external_body]
    fn wrap(width: u32, height: u32, channels: Vec<u8>) -> (made: Option<Raster>)
        ensures
            made.is_some() == fits(width, height, channels@.len()),
            made.is_some() ==> raster_width(&made.unwrap()) == width,
            made.is_some() ==> raster_height(&made.unwrap()) == height,
            made.is_some() ==> made.unwrap().reads_from(width, height, channels@),
    {
        match image::RgbaImage::from_raw(width, height, channels) {
            Some(inner) => Some(Raster { inner }),
            None => None,
        }
    }

    /// Calls `ImageBuffer::width`, which returns the width the buffer was
    /// made with. Not proved: that the result is the one `raster_width`
    /// names.
    #[verifier::external_body]
    fn columns(&self) -> (w: u32)
        ensures
            w == raster_width(self),
    {
        self.inner.width()
    }

    /// Calls `ImageBuffer::height`, which returns the height the buffer was
    /// made with. Not proved: that the result is the one `raster_height`
    /// names.
    #[verifier::external_body]
    fn rows(&self) -> (h: u32)
        ensures
            h == raster_height(self),
    {
        self.inner.height()
    }

    /// Makes an image of `width` by `height` pixels from a row-major buffer
    /// of channels: red, green, blue and alpha for each pixel. A buffer that
    /// is too short for that many pixels makes no image; channels beyond
    /// them are ignored.
    pub fn from_raw(width: u32, height: u32, channels: Vec<u8>) -> (made: Option<Raster>)
        ensures
            made.is_some() == fits(width, height, channels@.len()),
            made matches Some(img) ==> {
                &&& raster_width(&img) == width
                &&& raster_height(&img) == height
                &&& img.reads_from(width, height, channels@)
            },
    {
        Raster::wrap(width, height, channels)
    }

    /// The number of pixel columns.
    pub fn width(&self) -> (w: u32)
        ensures
            w == raster_width(self),
    {
        self.columns()
    }

    /// The number of pixel rows.
    pub fn height(&self) -> (h: u32)
        ensures
            h == raster_height(self),
    {
        self.rows()
    }

    /// Calls `ImageBuffer::get_pixel`, which panics outside the image (hence
    /// the precondition) and otherwise returns the stored pixel. Not proved:
    /// that the channels are those `raster_pixel` names.
    #[verifier::external_body]
    fn channels_at(&self, x: u32, y: u32) -> (p: (u8, u8, u8, u8))
        requires
            x < raster_width(self),
            y < raster_height(self),
        ensures
            p == raster_pixel(self, x, y),
    {
        let p = self.inner.get_pixel(x, y);
        (p.0[0], p.0[1], p.0[2], p.0[3])
    }

    /// The colour of the pixel at column `x` of row `y`. Alpha plays no part.
    pub open spec fn color_at(&self, x: int, y: int) -> Color {
        let p = raster_pixel(self, x as u32, y as u32);
        Color { r: p.0, g: p.1, b: p.2 }
    }

    /// Whether (`x`, `y`) names a pixel of the image.
    pub open spec fn has_pixel(&self, x: int, y: int) -> bool {
        0 <= x < raster_width(self) && 0 <= y < raster_height(self)
    }

    /// Reads the colour of one pixel inside the image.
    pub fn pixel_color(&self, x: u32, y: u32) -> (c: Color)
        requires
            self.has_pixel(x as int, y as int),
        ensures
            c == self.color_at(x as int, y as int),
    {
        let p = self.channels_at(x, y);
        Color { r: p.0, g: p.1, b: p.2 }
    }
}

} // verus!
