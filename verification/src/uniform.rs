//! Uniform noise on one pixel: one offset raises the three colour channels,
//! saturating at 255.

use crate::pixel::Rgba8;
use vstd::prelude::*;

verus! {

/// Offsets are drawn from `0` up to, but not reaching, this bound.
pub const OFFSET_BOUND: u8 = 150;

/// A channel raised by an offset, held at 255 where the sum would pass it.
pub open spec fn raised(channel: u8, offset: u8) -> u8 {
    if channel + offset <= 255 {
        (channel + offset) as u8
    } else {
        255u8
    }
}

/// A pixel whose colour channels are all raised by the same offset.
pub open spec fn raised_pixel(px: Rgba8, offset: u8) -> Rgba8 {
    Rgba8 {
        red: raised(px.red, offset),
        green: raised(px.green, offset),
        blue: raised(px.blue, offset),
        alpha: px.alpha,
    }
}

/// Raises one channel by `offset`, saturating at 255.
pub fn raise_channel(channel: u8, offset: u8) -> (out: u8)
    ensures
        out == raised(channel, offset),
{
    if channel <= 255 - offset {
        channel + offset
    } else {
        255
    }
}

/// Raises the three colour channels of `px` by `offset` and keeps alpha.
pub fn raise_pixel(px: Rgba8, offset: u8) -> (out: Rgba8)
    ensures
        out == raised_pixel(px, offset),
{
    Rgba8 {
        red: raise_channel(px.red, offset),
        green: raise_channel(px.green, offset),
        blue: raise_channel(px.blue, offset),
        alpha: px.alpha,
    }
}

/// Raising never lowers a channel and never passes 255; short of 255 the
/// channel has grown by exactly the offset.
pub proof fn lemma_raised_in_range(channel: u8, offset: u8)
    ensures
        channel <= raised(channel, offset) <= 255,
        raised(channel, offset) < 255 ==> raised(channel, offset) == channel + offset,
        channel + offset >= 255 ==> raised(channel, offset) == 255,
{
}

/// One offset serves the three colour channels of a pixel: each is the old
/// channel raised by that offset, none is lowered, and alpha is the old
/// alpha.
pub proof fn lemma_raised_pixel_shares_offset(px: Rgba8, offset: u8)
    ensures
        raised_pixel(px, offset).red == raised(px.red, offset) >= px.red,
        raised_pixel(px, offset).green == raised(px.green, offset) >= px.green,
        raised_pixel(px, offset).blue == raised(px.blue, offset) >= px.blue,
        raised_pixel(px, offset).alpha == px.alpha,
{
}

} // verus!
