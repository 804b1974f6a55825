//! The image buffer: `image::DynamicImage`, seen through its dimensions and
//! the RGBA value of each pixel.
//!
//! The wrappers of this file are not proved. Their contracts restate what
//! the source of the `image` crate shows of `dimensions`, `get_pixel` and
//! `put_pixel`.

use crate::pixel::{luma_of, read_back, Layout, Rgba8};
use image::{DynamicImage, GenericImage, GenericImageView};
use vstd::prelude::*;

verus! {

#[verifier::external_type_specification]
#[verifier::external_body]
pub struct ExDynamicImage(image::DynamicImage);

/// The width that `dimensions` reports.
pub uninterp spec fn image_width(img: DynamicImage) -> nat;

/// The height that `dimensions` reports.
pub uninterp spec fn image_height(img: DynamicImage) -> nat;

/// The pixels of the image by `(x, y)`, each as `get_pixel` reports it.
pub uninterp spec fn image_pixels(img: DynamicImage) -> Map<(int, int), Rgba8>;

/// The variant of `DynamicImage` that holds the pixels.
pub uninterp spec fn image_layout(img: DynamicImage) -> Layout;

/// The pixel at `(x, y)`.
pub open spec fn pixel_at(img: DynamicImage, x: int, y: int) -> Rgba8 {
    image_pixels(img)[(x, y)]
}

/// Whether `(x, y)` lies inside the image.
pub open spec fn in_bounds(img: DynamicImage, x: int, y: int) -> bool {
    0 <= x < image_width(img) && 0 <= y < image_height(img)
}

/// The variant of `image::DynamicImage` that `img` is, by a match on it.
#[verifier::external_body]
fn layout(img: &DynamicImage) -> (out: Layout)
    ensures
        out == image_layout(*img),
{
    match *img {
        DynamicImage::ImageLuma8(_) => Layout::Luma8,
        DynamicImage::ImageLumaA8(_) => Layout::LumaA8,
        DynamicImage::ImageRgb8(_) => Layout::Rgb8,
        DynamicImage::ImageRgba8(_) => Layout::Rgba8,
        DynamicImage::ImageBgr8(_) => Layout::Bgr8,
        DynamicImage::ImageBgra8(_) => Layout::Bgra8,
    }
}

/// The layout of an image.
pub fn layout_of(img: &DynamicImage) -> (out: Layout)
    ensures
        out == image_layout(*img),
{
    layout(img)
}

/// `GenericImageView::dimensions` of `DynamicImage`: width, then height.
#[verifier::external_body]
pub(crate) fn dimensions(img: &DynamicImage) -> (dims: (u32, u32))
    ensures
        dims.0 == image_width(*img),
        dims.1 == image_height(*img),
{
    img.dimensions()
}

/// `GenericImageView::get_pixel` of `DynamicImage`, which converts the
/// stored pixel to RGBA: a layout without alpha reads as opaque. It panics
/// outside the image, so the coordinates must lie inside.
#[verifier::external_body]
pub(crate) fn get_pixel(img: &DynamicImage, x: u32, y: u32) -> (px: Rgba8)
    requires
        x < image_width(*img),
        y < image_height(*img),
    ensures
        px == image_pixels(*img)[(x as int, y as int)],
        !image_layout(*img).has_alpha() ==> px.alpha == 255,
{
    let p = img.get_pixel(x, y);
    Rgba8 { red: p.data[0], green: p.data[1], blue: p.data[2], alpha: p.data[3] }
}

/// `GenericImage::put_pixel` of `DynamicImage`, which converts the pixel to
/// the image's layout and overwrites the one at `(x, y)`. It panics outside
/// the image. Dimensions, layout and every other pixel stay as they were;
/// the pixel itself reads back as `read_back` says.
#[verifier::external_body]
pub(crate) fn put_pixel(img: &mut DynamicImage, x: u32, y: u32, px: Rgba8)
    requires
        x < image_width(*old(img)),
        y < image_height(*old(img)),
    ensures
        image_width(*final(img)) == image_width(*old(img)),
        image_height(*final(img)) == image_height(*old(img)),
        image_layout(*final(img)) == image_layout(*old(img)),
        image_pixels(*final(img)) == image_pixels(*old(img)).insert(
            (x as int, y as int),
            read_back(image_layout(*old(img)), px, luma_of(px.red, px.green, px.blue)),
        ),
{
    img.put_pixel(x, y, image::Rgba { data: [px.red, px.green, px.blue, px.alpha] });
}

} // verus!
