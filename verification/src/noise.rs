//! The two transforms over a whole image.
//!
//! Each walks the image column by column, and within a column from the top
//! down, and rewrites every pixel exactly once from its own old value and
//! from random draws: no pixel depends on another.

use crate::canvas::{
    dimensions, get_pixel, image_height, image_layout, image_pixels, image_width, in_bounds,
    pixel_at, put_pixel,
};
use crate::pixel::{stored_pixel, Rgba8};
use crate::source::{draw_below, draw_word, thread_source};
use crate::tint::{tint_pixel, tinted_pixel};
use crate::uniform::{
    lemma_raised_pixel_shares_offset, raise_pixel, raised, raised_pixel, OFFSET_BOUND,
};
use image::DynamicImage;
use rand::rngs::ThreadRng;
use vstd::prelude::*;

verus! {

/// Whether two images have the same width, height and layout.
pub open spec fn same_frame(a: DynamicImage, b: DynamicImage) -> bool {
    &&& image_width(a) == image_width(b)
    &&& image_height(a) == image_height(b)
    &&& image_layout(a) == image_layout(b)
}

/// Whether every pixel of `after` has the alpha that it has in `before`.
pub open spec fn same_alpha(after: DynamicImage, before: DynamicImage) -> bool {
    forall|x: int, y: int|
        in_bounds(before, x, y) ==> (#[trigger] pixel_at(after, x, y)).alpha == pixel_at(
            before,
            x,
            y,
        ).alpha
}

/// The number of pixels of an image.
pub open spec fn pixel_count(img: DynamicImage) -> nat {
    image_width(img) * image_height(img)
}

/// The place of pixel `(x, y)` in the order in which the transforms visit
/// the pixels: columns from the left, each from the top.
pub open spec fn visit_index(img: DynamicImage, x: int, y: int) -> int {
    x * image_height(img) + y
}

/// What the image holds at a pixel once uniform noise with the given offset
/// was applied to `old_px`.
pub open spec fn noisy_pixel(before: DynamicImage, old_px: Rgba8, offset: u8) -> Rgba8 {
    stored_pixel(image_layout(before), raised_pixel(old_px, offset))
}

/// Whether `new_px` is `old_px` after uniform noise with some offset below
/// the bound.
pub open spec fn raised_by_some_offset(before: DynamicImage, old_px: Rgba8, new_px: Rgba8) -> bool {
    exists|offset: u8|
        offset < OFFSET_BOUND && new_px == #[trigger] noisy_pixel(before, old_px, offset)
}

/// What the image holds at a pixel once the pink tint with the given random
/// words was applied to `old_px`.
pub open spec fn pink_pixel(
    before: DynamicImage,
    old_px: Rgba8,
    red_word: u64,
    green_word: u64,
    blue_word: u64,
) -> Rgba8 {
    stored_pixel(image_layout(before), tinted_pixel(old_px, red_word, green_word, blue_word))
}

/// Whether `new_px` is `old_px` after the pink tint with some random words.
pub open spec fn tinted_by_some_words(before: DynamicImage, old_px: Rgba8, new_px: Rgba8) -> bool {
    exists|red_word: u64, green_word: u64, blue_word: u64|
        new_px == #[trigger] pink_pixel(before, old_px, red_word, green_word, blue_word)
}

/// Whether `after` is `before` with uniform noise added: the same frame, the
/// same alpha, and every pixel raised by some offset below the bound.
pub open spec fn is_uniform_noise(before: DynamicImage, after: DynamicImage) -> bool {
    &&& same_frame(after, before)
    &&& same_alpha(after, before)
    &&& forall|x: int, y: int|
        in_bounds(before, x, y) ==> raised_by_some_offset(
            before,
            pixel_at(before, x, y),
            #[trigger] pixel_at(after, x, y),
        )
}

/// Whether `after` is `before` with the offsets of a list added: the same
/// frame, the same alpha, and the pixel visited as number `k` raised by
/// `offsets[k]`.
pub open spec fn is_listed_noise(before: DynamicImage, after: DynamicImage, offsets: Seq<u8>) -> bool {
    &&& same_frame(after, before)
    &&& same_alpha(after, before)
    &&& forall|x: int, y: int|
        in_bounds(before, x, y) ==> #[trigger] pixel_at(after, x, y) == noisy_pixel(
            before,
            pixel_at(before, x, y),
            offsets[visit_index(before, x, y)],
        )
}

/// Whether `after` is `before` with the pink tint: the same frame, the same
/// alpha, and every pixel tinted with some random words.
pub open spec fn is_pink_noise(before: DynamicImage, after: DynamicImage) -> bool {
    &&& same_frame(after, before)
    &&& same_alpha(after, before)
    &&& forall|x: int, y: int|
        in_bounds(before, x, y) ==> tinted_by_some_words(
            before,
            pixel_at(before, x, y),
            #[trigger] pixel_at(after, x, y),
        )
}

/// Whether `after` is `before` with the pink tint of a list of words: the
/// same frame, the same alpha, and the pixel visited as number `k` tinted
/// with `words[3 * k]` for red, `words[3 * k + 1]` for green and
/// `words[3 * k + 2]` for blue.
pub open spec fn is_listed_pink_noise(
    before: DynamicImage,
    after: DynamicImage,
    words: Seq<u64>,
) -> bool {
    &&& same_frame(after, before)
    &&& same_alpha(after, before)
    &&& forall|x: int, y: int|
        in_bounds(before, x, y) ==> #[trigger] pixel_at(after, x, y) == pink_pixel(
            before,
            pixel_at(before, x, y),
            words[3 * visit_index(before, x, y)],
            words[3 * visit_index(before, x, y) + 1],
            words[3 * visit_index(before, x, y) + 2],
        )
}

/// Every visit index of a pixel inside the image lies below the pixel count.
pub proof fn lemma_visit_index_in_range(img: DynamicImage, x: int, y: int)
    requires
        in_bounds(img, x, y),
    ensures
        0 <= visit_index(img, x, y) < pixel_count(img),
{
    let w = image_width(img) as int;
    let h = image_height(img) as int;
    assert(0 <= x * h && (x + 1) * h <= w * h && (x + 1) * h == x * h + h) by (nonlinear_arith)
        requires
            0 <= x < w,
            0 <= h,
    ;
}

/// Whether `(i, j)` comes before `(x, y)` in the order of the walk.
spec fn visited(i: int, j: int, x: int, y: int) -> bool {
    i < x || (i == x && j < y)
}

/// The state of a walk that has reached `(x, y)`: the frame is that of
/// `before`, every pixel has kept its alpha, the pixels visited so far meet
/// `rule` and the others are as they were.
spec fn walked(
    before: DynamicImage,
    img: DynamicImage,
    x: int,
    y: int,
    rule: spec_fn(int, int, Rgba8) -> bool,
) -> bool {
    &&& same_frame(img, before)
    &&& same_alpha(img, before)
    &&& forall|i: int, j: int|
        in_bounds(before, i, j) && visited(i, j, x, y) ==> rule(i, j, #[trigger] pixel_at(img, i, j))
    &&& forall|i: int, j: int|
        in_bounds(before, i, j) && !visited(i, j, x, y) ==> #[trigger] pixel_at(img, i, j)
            == pixel_at(before, i, j)
}

/// A walk starts with the image as it was.
proof fn lemma_walk_start(before: DynamicImage, rule: spec_fn(int, int, Rgba8) -> bool)
    ensures
        walked(before, before, 0, 0, rule),
{
}

/// Rewriting the pixel at `(x, y)` by the rule moves the walk one pixel on.
proof fn lemma_walk_step(
    before: DynamicImage,
    prev: DynamicImage,
    img: DynamicImage,
    x: int,
    y: int,
    rule: spec_fn(int, int, Rgba8) -> bool,
)
    requires
        walked(before, prev, x, y, rule),
        in_bounds(before, x, y),
        same_frame(img, prev),
        image_pixels(img) == image_pixels(prev).insert((x, y), pixel_at(img, x, y)),
        pixel_at(img, x, y).alpha == pixel_at(prev, x, y).alpha,
        rule(x, y, pixel_at(img, x, y)),
    ensures
        walked(before, img, x, y + 1, rule),
{
    assert forall|i: int, j: int| in_bounds(before, i, j) implies (#[trigger] pixel_at(
        img,
        i,
        j,
    )).alpha == pixel_at(before, i, j).alpha by {
        if !(i == x && j == y) {
            assert(pixel_at(img, i, j) == pixel_at(prev, i, j));
        }
    }
    assert forall|i: int, j: int| in_bounds(before, i, j) && visited(i, j, x, y + 1) implies rule(
        i,
        j,
        #[trigger] pixel_at(img, i, j),
    ) by {
        if !(i == x && j == y) {
            assert(pixel_at(img, i, j) == pixel_at(prev, i, j));
        }
    }
    assert forall|i: int, j: int|
        in_bounds(before, i, j) && !visited(i, j, x, y + 1) implies #[trigger] pixel_at(img, i, j)
        == pixel_at(before, i, j) by {
        assert(pixel_at(img, i, j) == pixel_at(prev, i, j));
    }
}

/// The end of a column is the start of the next.
proof fn lemma_walk_next_column(
    before: DynamicImage,
    img: DynamicImage,
    x: int,
    rule: spec_fn(int, int, Rgba8) -> bool,
)
    requires
        walked(before, img, x, image_height(before) as int, rule),
    ensures
        walked(before, img, x + 1, 0, rule),
        visit_index(before, x, image_height(before) as int) == visit_index(before, x + 1, 0),
{
    let h = image_height(before) as int;
    assert(x * h + h == (x + 1) * h) by (nonlinear_arith);
}

/// Raises the pixel at `(x, y)` by `offset` and writes it back.
fn raise_at(img: &mut DynamicImage, x: u32, y: u32, offset: u8)
    requires
        in_bounds(*old(img), x as int, y as int),
    ensures
        same_frame(*final(img), *old(img)),
        pixel_at(*final(img), x as int, y as int) == noisy_pixel(
            *old(img),
            pixel_at(*old(img), x as int, y as int),
            offset,
        ),
        pixel_at(*final(img), x as int, y as int).alpha == pixel_at(
            *old(img),
            x as int,
            y as int,
        ).alpha,
        image_pixels(*final(img)) == image_pixels(*old(img)).insert(
            (x as int, y as int),
            pixel_at(*final(img), x as int, y as int),
        ),
{
    let px: Rgba8 = get_pixel(img, x, y);
    let noisy: Rgba8 = raise_pixel(px, offset);
    put_pixel(img, x, y, noisy);
}

/// Tints the pixel at `(x, y)` with the three words and writes it back.
fn tint_at(img: &mut DynamicImage, x: u32, y: u32, red_word: u64, green_word: u64, blue_word: u64)
    requires
        in_bounds(*old(img), x as int, y as int),
    ensures
        same_frame(*final(img), *old(img)),
        pixel_at(*final(img), x as int, y as int) == pink_pixel(
            *old(img),
            pixel_at(*old(img), x as int, y as int),
            red_word,
            green_word,
            blue_word,
        ),
        pixel_at(*final(img), x as int, y as int).alpha == pixel_at(
            *old(img),
            x as int,
            y as int,
        ).alpha,
        image_pixels(*final(img)) == image_pixels(*old(img)).insert(
            (x as int, y as int),
            pixel_at(*final(img), x as int, y as int),
        ),
{
    let px: Rgba8 = get_pixel(img, x, y);
    let pink: Rgba8 = tint_pixel(px, red_word, green_word, blue_word);
    put_pixel(img, x, y, pink);
}

/// Adds uniform noise: every pixel has its three colour channels raised by
/// one offset drawn from `[0, 150)`, a fresh draw for each pixel, saturating
/// at 255. Alpha, the dimensions and the layout stay as they were.
#[verifier::loop_isolation(false)]
pub fn add_noise_rand(img: DynamicImage) -> (out: DynamicImage)
    ensures
        is_uniform_noise(img, out),
{
    let ghost before = img;
    let ghost rule = |i: int, j: int, px: Rgba8|
        raised_by_some_offset(before, pixel_at(before, i, j), px);
    let mut img = img;
    let (width, height) = dimensions(&img);
    let mut rng: ThreadRng = thread_source();
    let mut x: u32 = 0;
    proof {
        lemma_walk_start(before, rule);
    }
    while x < width
        invariant
            x <= width,
            width == image_width(before),
            height == image_height(before),
            walked(before, img, x as int, 0, rule),
        decreases width - x,
    {
        let mut y: u32 = 0;
        while y < height
            invariant
                x < width,
                y <= height,
                width == image_width(before),
                height == image_height(before),
                walked(before, img, x as int, y as int, rule),
            decreases height - y,
        {
            let offset: u8 = draw_below(&mut rng, 0, OFFSET_BOUND);
            let ghost prev = img;
            assert(pixel_at(prev, x as int, y as int) == pixel_at(before, x as int, y as int));
            raise_at(&mut img, x, y, offset);
            proof {
                assert(pixel_at(img, x as int, y as int) == noisy_pixel(
                    before,
                    pixel_at(before, x as int, y as int),
                    offset,
                ));
                lemma_walk_step(before, prev, img, x as int, y as int, rule);
            }
            y = y + 1;
        }
        proof {
            lemma_walk_next_column(before, img, x as int, rule);
        }
        x = x + 1;
    }
    img
}

/// Adds uniform noise with the offsets of a list in place of random draws:
/// the pixel visited as number `k` (see `visit_index`) is raised by
/// `offsets[k]`. The list must hold an offset for every pixel; where it is
/// too short nothing is done and `None` comes back. Offsets beyond the
/// pixel count are not used.
#[verifier::loop_isolation(false)]
pub fn add_noise_offsets(img: DynamicImage, offsets: &Vec<u8>) -> (out: Option<DynamicImage>)
    ensures
        out is Some <==> offsets.len() >= pixel_count(img),
        out matches Some(done) ==> is_listed_noise(img, done, offsets@),
{
    let ghost before = img;
    let ghost rule = |i: int, j: int, px: Rgba8|
        px == noisy_pixel(before, pixel_at(before, i, j), offsets@[visit_index(before, i, j)]);
    let mut img = img;
    let (width, height) = dimensions(&img);
    assert(width * height <= u64::MAX) by (nonlinear_arith)
        requires
            width <= u32::MAX,
            height <= u32::MAX,
    ;
    let needed: u64 = (width as u64) * (height as u64);
    if (offsets.len() as u64) < needed {
        return None;
    }
    let mut next: usize = 0;
    let mut x: u32 = 0;
    proof {
        lemma_walk_start(before, rule);
    }
    while x < width
        invariant
            x <= width,
            width == image_width(before),
            height == image_height(before),
            offsets.len() >= pixel_count(before),
            next == visit_index(before, x as int, 0),
            walked(before, img, x as int, 0, rule),
        decreases width - x,
    {
        let mut y: u32 = 0;
        while y < height
            invariant
                x < width,
                y <= height,
                width == image_width(before),
                height == image_height(before),
                offsets.len() >= pixel_count(before),
                next == visit_index(before, x as int, y as int),
                walked(before, img, x as int, y as int, rule),
            decreases height - y,
        {
            proof {
                lemma_visit_index_in_range(before, x as int, y as int);
            }
            let offset: u8 = offsets[next];
            let ghost prev = img;
            assert(pixel_at(prev, x as int, y as int) == pixel_at(before, x as int, y as int));
            raise_at(&mut img, x, y, offset);
            proof {
                lemma_walk_step(before, prev, img, x as int, y as int, rule);
            }
            y = y + 1;
            next = next + 1;
        }
        proof {
            lemma_walk_next_column(before, img, x as int, rule);
        }
        x = x + 1;
    }
    Some(img)
}

/// Adds pink-tinted noise: every pixel has each colour channel damped by
/// 0.99 and scaled by a random factor of its own, from 0.6 up to 1.2 for
/// red, up to 0.7 for green and up to 1.0 for blue, three fresh draws for
/// each pixel; the fraction of the result is dropped and a result above 255
/// is held at 255. Alpha, the dimensions and the layout stay as they were.
#[verifier::loop_isolation(false)]
pub fn pink_noise(img: DynamicImage) -> (out: DynamicImage)
    ensures
        is_pink_noise(img, out),
{
    let ghost before = img;
    let ghost rule = |i: int, j: int, px: Rgba8|
        tinted_by_some_words(before, pixel_at(before, i, j), px);
    let mut img = img;
    let (width, height) = dimensions(&img);
    let mut rng: ThreadRng = thread_source();
    let mut x: u32 = 0;
    proof {
        lemma_walk_start(before, rule);
    }
    while x < width
        invariant
            x <= width,
            width == image_width(before),
            height == image_height(before),
            walked(before, img, x as int, 0, rule),
        decreases width - x,
    {
        let mut y: u32 = 0;
        while y < height
            invariant
                x < width,
                y <= height,
                width == image_width(before),
                height == image_height(before),
                walked(before, img, x as int, y as int, rule),
            decreases height - y,
        {
            let red_word: u64 = draw_word(&mut rng);
            let green_word: u64 = draw_word(&mut rng);
            let blue_word: u64 = draw_word(&mut rng);
            let ghost prev = img;
            assert(pixel_at(prev, x as int, y as int) == pixel_at(before, x as int, y as int));
            tint_at(&mut img, x, y, red_word, green_word, blue_word);
            proof {
                assert(pixel_at(img, x as int, y as int) == pink_pixel(
                    before,
                    pixel_at(before, x as int, y as int),
                    red_word,
                    green_word,
                    blue_word,
                ));
                lemma_walk_step(before, prev, img, x as int, y as int, rule);
            }
            y = y + 1;
        }
        proof {
            lemma_walk_next_column(before, img, x as int, rule);
        }
        x = x + 1;
    }
    img
}

/// Adds pink-tinted noise with the words of a list in place of random
/// draws: the pixel visited as number `k` (see `visit_index`) takes
/// `words[3 * k]` for red, `words[3 * k + 1]` for green and
/// `words[3 * k + 2]` for blue. The list must hold three words for every
/// pixel; where it is too short nothing is done and `None` comes back. Words
/// beyond those are not used.
#[verifier::loop_isolation(false)]
pub fn pink_noise_words(img: DynamicImage, words: &Vec<u64>) -> (out: Option<DynamicImage>)
    ensures
        out is Some <==> words.len() >= 3 * pixel_count(img),
        out matches Some(done) ==> is_listed_pink_noise(img, done, words@),
{
    let ghost before = img;
    let ghost rule = |i: int, j: int, px: Rgba8|
        px == pink_pixel(
            before,
            pixel_at(before, i, j),
            words@[3 * visit_index(before, i, j)],
            words@[3 * visit_index(before, i, j) + 1],
            words@[3 * visit_index(before, i, j) + 2],
        );
    let mut img = img;
    let (width, height) = dimensions(&img);
    assert(width * height <= u64::MAX) by (nonlinear_arith)
        requires
            width <= u32::MAX,
            height <= u32::MAX,
    ;
    let needed: u128 = 3 * ((width as u128) * (height as u128));
    if (words.len() as u128) < needed {
        return None;
    }
    let mut next: usize = 0;
    let mut x: u32 = 0;
    proof {
        lemma_walk_start(before, rule);
    }
    while x < width
        invariant
            x <= width,
            width == image_width(before),
            height == image_height(before),
            words.len() >= 3 * pixel_count(before),
            next == 3 * visit_index(before, x as int, 0),
            walked(before, img, x as int, 0, rule),
        decreases width - x,
    {
        let mut y: u32 = 0;
        while y < height
            invariant
                x < width,
                y <= height,
                width == image_width(before),
                height == image_height(before),
                words.len() >= 3 * pixel_count(before),
                next == 3 * visit_index(before, x as int, y as int),
                walked(before, img, x as int, y as int, rule),
            decreases height - y,
        {
            proof {
                lemma_visit_index_in_range(before, x as int, y as int);
            }
            let red_word: u64 = words[next];
            let green_word: u64 = words[next + 1];
            let blue_word: u64 = words[next + 2];
            let ghost prev = img;
            assert(pixel_at(prev, x as int, y as int) == pixel_at(before, x as int, y as int));
            tint_at(&mut img, x, y, red_word, green_word, blue_word);
            proof {
                lemma_walk_step(before, prev, img, x as int, y as int, rule);
            }
            y = y + 1;
            next = next + 3;
        }
        proof {
            lemma_walk_next_column(before, img, x as int, rule);
        }
        x = x + 1;
    }
    Some(img)
}

/// Both transforms keep the width and the height of the image, whatever its
/// size.
pub proof fn lemma_dimensions_kept(before: DynamicImage, after: DynamicImage)
    requires
        is_uniform_noise(before, after) || is_pink_noise(before, after),
    ensures
        image_width(after) == image_width(before),
        image_height(after) == image_height(before),
        pixel_count(after) == pixel_count(before),
{
}

/// Both transforms leave the alpha of every pixel as it was.
pub proof fn lemma_alpha_kept(before: DynamicImage, after: DynamicImage, x: int, y: int)
    requires
        is_uniform_noise(before, after) || is_pink_noise(before, after),
        in_bounds(before, x, y),
    ensures
        pixel_at(after, x, y).alpha == pixel_at(before, x, y).alpha,
{
}

/// On an image that keeps its colours apart, uniform noise lowers no colour
/// channel of any pixel.
pub proof fn lemma_noise_never_lowers(before: DynamicImage, after: DynamicImage, x: int, y: int)
    requires
        is_uniform_noise(before, after),
        image_layout(before).has_colour(),
        in_bounds(before, x, y),
    ensures
        pixel_at(before, x, y).red <= pixel_at(after, x, y).red <= 255,
        pixel_at(before, x, y).green <= pixel_at(after, x, y).green <= 255,
        pixel_at(before, x, y).blue <= pixel_at(after, x, y).blue <= 255,
{
    let old_px = pixel_at(before, x, y);
    let new_px = pixel_at(after, x, y);
    assert(raised_by_some_offset(before, old_px, new_px));
    let offset = choose|offset: u8|
        offset < OFFSET_BOUND && new_px == #[trigger] noisy_pixel(before, old_px, offset);
    lemma_raised_pixel_shares_offset(old_px, offset);
}

/// On an image that keeps its colours apart, the three colour channels of a
/// pixel are raised by one and the same offset below the bound.
pub proof fn lemma_noise_shares_offset(before: DynamicImage, after: DynamicImage, x: int, y: int)
    requires
        is_uniform_noise(before, after),
        image_layout(before).has_colour(),
        in_bounds(before, x, y),
    ensures
        exists|offset: u8|
            {
                &&& offset < OFFSET_BOUND
                &&& pixel_at(after, x, y).red == #[trigger] raised(pixel_at(before, x, y).red, offset)
                &&& pixel_at(after, x, y).green == raised(pixel_at(before, x, y).green, offset)
                &&& pixel_at(after, x, y).blue == raised(pixel_at(before, x, y).blue, offset)
            },
{
    let old_px = pixel_at(before, x, y);
    let new_px = pixel_at(after, x, y);
    assert(raised_by_some_offset(before, old_px, new_px));
    let offset = choose|offset: u8|
        offset < OFFSET_BOUND && new_px == #[trigger] noisy_pixel(before, old_px, offset);
    assert(new_px.red == raised(old_px.red, offset));
}

/// Noise from a list whose offsets all lie below the bound is uniform noise.
pub proof fn lemma_listed_noise_is_uniform(
    before: DynamicImage,
    after: DynamicImage,
    offsets: Seq<u8>,
)
    requires
        is_listed_noise(before, after, offsets),
        offsets.len() >= pixel_count(before),
        forall|k: int| 0 <= k < offsets.len() ==> offsets[k] < OFFSET_BOUND,
    ensures
        is_uniform_noise(before, after),
{
    assert forall|x: int, y: int| in_bounds(before, x, y) implies raised_by_some_offset(
        before,
        pixel_at(before, x, y),
        #[trigger] pixel_at(after, x, y),
    ) by {
        lemma_visit_index_in_range(before, x, y);
        let offset = offsets[visit_index(before, x, y)];
        assert(pixel_at(after, x, y) == noisy_pixel(before, pixel_at(before, x, y), offset));
    }
}

/// The pink tint from any list of words is the pink tint.
pub proof fn lemma_listed_pink_is_pink(before: DynamicImage, after: DynamicImage, words: Seq<u64>)
    requires
        is_listed_pink_noise(before, after, words),
    ensures
        is_pink_noise(before, after),
{
    assert forall|x: int, y: int| in_bounds(before, x, y) implies tinted_by_some_words(
        before,
        pixel_at(before, x, y),
        #[trigger] pixel_at(after, x, y),
    ) by {
        let k = 3 * visit_index(before, x, y);
        assert(pixel_at(after, x, y) == pink_pixel(
            before,
            pixel_at(before, x, y),
            words[k],
            words[k + 1],
            words[k + 2],
        ));
    }
}

} // verus!
