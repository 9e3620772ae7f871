//! Pixel colours.

use vstd::prelude::*;

verus! {

/// The colour of a pixel: red, green and blue. Two pixels belong to the same
/// province exactly when their colours are equal.
#[derive(Clone, Copy, Debug, PartialEq, Eq, Structural, Hash)]
pub struct Color {
    pub r: u8,
    pub g: u8,
    pub b: u8,
}

impl Color {
    /// Whether the colour is a shade of grey, which marks sea and background.
    pub open spec fn gray(self) -> bool {
        self.r == self.g && self.g == self.b
    }

    /// Whether the colour marks sea: all three channels are equal.
    pub fn is_gray(&self) -> (gray: bool)
        ensures
            gray == self.gray(),
    {
        self.r == self.g && self.g == self.b
    }
}

} // verus!
