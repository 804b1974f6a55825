//! Pixels as plain values, and what an image keeps of a pixel written to it.

use vstd::prelude::*;

verus! {

/// One pixel as an image reports it: three colour channels and alpha.
#[derive(Clone, Copy, Debug, PartialEq, Eq, Structural)]
pub struct Rgba8 {
    pub red: u8,
    pub green: u8,
    pub blue: u8,
    pub alpha: u8,
}

/// How an image stores its pixels. Every layout is read back as RGBA.
#[derive(Clone, Copy, Debug, PartialEq, Eq, Structural)]
pub enum Layout {
    /// One grey channel.
    Luma8,
    /// One grey channel and alpha.
    LumaA8,
    /// Red, green, blue.
    Rgb8,
    /// Red, green, blue and alpha.
    Rgba8,
    /// Blue, green, red.
    Bgr8,
    /// Blue, green, red and alpha.
    Bgra8,
}

impl Layout {
    /// Whether the layout has a channel for alpha.
    pub open spec fn has_alpha(self) -> bool {
        self is LumaA8 || self is Rgba8 || self is Bgra8
    }

    /// Whether the layout keeps red, green and blue apart.
    pub open spec fn has_colour(self) -> bool {
        self is Rgb8 || self is Rgba8 || self is Bgr8 || self is Bgra8
    }
}

/// The grey value that `Pixel::to_luma` and `Pixel::to_luma_alpha` of the
/// `image` crate give a colour: a weighted sum of the three channels,
/// computed in single precision and cut to a byte.
pub uninterp spec fn luma_of(red: u8, green: u8, blue: u8) -> u8;

/// The pixel that is read back after `px` was written to an image of the
/// given layout, where `grey` is the luma of its colour: a layout without
/// alpha reads back as opaque, a grey layout keeps only the luma.
pub open spec fn read_back(layout: Layout, px: Rgba8, grey: u8) -> Rgba8 {
    let alpha = if layout.has_alpha() {
        px.alpha
    } else {
        255u8
    };
    if layout.has_colour() {
        Rgba8 { red: px.red, green: px.green, blue: px.blue, alpha }
    } else {
        Rgba8 { red: grey, green: grey, blue: grey, alpha }
    }
}

/// The pixel that is read back after `px` was written to an image of the
/// given layout.
pub open spec fn stored_pixel(layout: Layout, px: Rgba8) -> Rgba8 {
    read_back(layout, px, luma_of(px.red, px.green, px.blue))
}

} // verus!
