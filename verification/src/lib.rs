//! Synthetic per-pixel noise for raster images.
//!
//! Two transforms walk an image once and rewrite the colour channels of
//! every pixel: uniform noise raises the three colour channels of a pixel by
//! one random offset, saturating at 255, and the pink tint scales each colour
//! channel by its own random factor. Alpha is never touched and the
//! dimensions never change.
//!
//! The arithmetic of both transforms is verified. The image buffer and the
//! random generator come from the `image` and `rand` crates and are reached
//! through the small trusted wrappers in [`canvas`] and [`source`].

pub mod canvas;
pub mod dyadic;
pub mod noise;
pub mod pixel;
pub mod source;
pub mod tint;
pub mod uniform;
