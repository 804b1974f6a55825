//! The pink tint on one pixel: each colour channel is damped and then scaled
//! by a factor of its own.
//!
//! A factor is `0.6 + r * spread`, where `r` is a random fraction in
//! `[0, 1)` and the spread is 0.6 for red, 0.1 for green and 0.4 for blue.
//! The new channel is the integer part of `channel * 0.99 * factor`, held at
//! 255. Every step is rounded as double precision rounds it; the constants
//! are the doubles nearest to the decimal numbers.

use crate::dyadic::{
    excess_bits, lemma_excess_bits_at_most, lemma_excess_bits_known, lemma_nearest_even_between,
    lemma_nearest_even_short_of, plus, product, sum, times, truncate, whole_u8, Binary, Dyadic,
    MANT_LIMIT,
};
use crate::pixel::Rgba8;
use vstd::arithmetic::power2::{
    lemma2_to64, lemma2_to64_rest, lemma_pow2_adds, lemma_pow2_pos, pow2,
};
use vstd::bits::lemma_u64_shr_is_div;
use vstd::prelude::*;

verus! {

/// The exponent shared by fractions whose 53-bit significand counts units of
/// `2^-53`.
pub const FRACTION_EXP: i32 = -53;

/// The significand of the double nearest to 0.6, in units of `2^-53`.
pub const BASE_MANT: u64 = 0x13_3333_3333_3333;

/// The significand of the double nearest to 0.99, in units of `2^-53`.
pub const DAMPING_MANT: u64 = 0x1f_ae14_7ae1_47ae;

/// The significand of the doubles nearest to 0.1 and to 0.4.
pub const TENTH_MANT: u64 = 0x19_9999_9999_999a;

/// The exponent of the double nearest to 0.1.
pub const GREEN_EXP: i32 = -56;

/// The exponent of the double nearest to 0.4.
pub const BLUE_EXP: i32 = -54;

/// The significand of the double nearest to 0.7, in units of `2^-53`.
pub const GREEN_TOP_MANT: u64 = 0x16_6666_6666_6666;

/// How many low bits of a random word are dropped to leave a 53-bit
/// fraction.
pub const DROPPED_BITS: u64 = 11;

/// A colour channel of a pixel.
#[derive(Clone, Copy, Debug, PartialEq, Eq, Structural)]
pub enum Channel {
    Red,
    Green,
    Blue,
}

/// 0.6, the least factor of every channel.
pub open spec fn scale_base() -> Dyadic {
    Dyadic { mant: BASE_MANT as nat, exp: FRACTION_EXP as int }
}

/// 0.99, by which every channel is damped.
pub open spec fn damping() -> Dyadic {
    Dyadic { mant: DAMPING_MANT as nat, exp: FRACTION_EXP as int }
}

/// The width of the range of a channel's factor: 0.6, 0.1 or 0.4.
pub open spec fn spread(which: Channel) -> Dyadic {
    match which {
        Channel::Red => Dyadic { mant: BASE_MANT as nat, exp: FRACTION_EXP as int },
        Channel::Green => Dyadic { mant: TENTH_MANT as nat, exp: GREEN_EXP as int },
        Channel::Blue => Dyadic { mant: TENTH_MANT as nat, exp: BLUE_EXP as int },
    }
}

/// The fraction in `[0, 1)` that a random word stands for: its 53 high bits,
/// in units of `2^-53`.
pub open spec fn unit_fraction(word: u64) -> Dyadic {
    Dyadic { mant: (word / 2048) as nat, exp: FRACTION_EXP as int }
}

/// The factor of a channel for a random word.
pub open spec fn tint_scale(word: u64, which: Channel) -> Dyadic {
    sum(scale_base(), product(unit_fraction(word), spread(which)))
}

/// A channel after the tint with the given random word.
pub open spec fn tinted(channel: u8, word: u64, which: Channel) -> u8 {
    let damped = product(Dyadic { mant: channel as nat, exp: 0 }, damping());
    whole_u8(product(damped, tint_scale(word, which)))
}

/// A pixel after the tint: one random word for each colour channel, alpha
/// kept.
pub open spec fn tinted_pixel(px: Rgba8, red_word: u64, green_word: u64, blue_word: u64) -> Rgba8 {
    Rgba8 {
        red: tinted(px.red, red_word, Channel::Red),
        green: tinted(px.green, green_word, Channel::Green),
        blue: tinted(px.blue, blue_word, Channel::Blue),
        alpha: px.alpha,
    }
}

/// The width of the range of a channel's factor.
fn spread_of(which: Channel) -> (out: Binary)
    ensures
        out@ == spread(which),
        out.mant < MANT_LIMIT,
        GREEN_EXP <= out.exp <= FRACTION_EXP,
{
    match which {
        Channel::Red => Binary { mant: BASE_MANT, exp: FRACTION_EXP },
        Channel::Green => Binary { mant: TENTH_MANT, exp: GREEN_EXP },
        Channel::Blue => Binary { mant: TENTH_MANT, exp: BLUE_EXP },
    }
}

/// The factor of a channel for a random word.
pub fn scale_for(word: u64, which: Channel) -> (out: Binary)
    ensures
        out@ == tint_scale(word, which),
        out.wf(),
        -128 <= out.exp <= 128,
{
    proof {
        lemma2_to64();
        lemma_u64_shr_is_div(word, DROPPED_BITS);
    }
    let unit = Binary { mant: word >> DROPPED_BITS, exp: FRACTION_EXP };
    let part: Binary = times(unit, spread_of(which));
    plus(Binary { mant: BASE_MANT, exp: FRACTION_EXP }, part)
}

/// Tints one channel with the given random word.
pub fn tint_channel(channel: u8, word: u64, which: Channel) -> (out: u8)
    ensures
        out == tinted(channel, word, which),
{
    let scale: Binary = scale_for(word, which);
    let damped: Binary = times(
        Binary { mant: channel as u64, exp: 0 },
        Binary { mant: DAMPING_MANT, exp: FRACTION_EXP },
    );
    truncate(times(damped, scale))
}

/// Tints the three colour channels of `px`, each with its own random word,
/// and keeps alpha.
pub fn tint_pixel(px: Rgba8, red_word: u64, green_word: u64, blue_word: u64) -> (out: Rgba8)
    ensures
        out == tinted_pixel(px, red_word, green_word, blue_word),
{
    Rgba8 {
        red: tint_channel(px.red, red_word, Channel::Red),
        green: tint_channel(px.green, green_word, Channel::Green),
        blue: tint_channel(px.blue, blue_word, Channel::Blue),
        alpha: px.alpha,
    }
}

/// The tint keeps alpha and gives each colour channel the word meant for
/// it.
pub proof fn lemma_tinted_pixel_keeps_alpha(
    px: Rgba8,
    red_word: u64,
    green_word: u64,
    blue_word: u64,
)
    ensures
        tinted_pixel(px, red_word, green_word, blue_word).alpha == px.alpha,
        tinted_pixel(px, red_word, green_word, blue_word).red == tinted(
            px.red,
            red_word,
            Channel::Red,
        ),
        tinted_pixel(px, red_word, green_word, blue_word).green == tinted(
            px.green,
            green_word,
            Channel::Green,
        ),
        tinted_pixel(px, red_word, green_word, blue_word).blue == tinted(
            px.blue,
            blue_word,
            Channel::Blue,
        ),
{
}

/// The rounded product of the random fraction and a spread: it has dropped
/// at most 53 bits of the exact product, and it is less than the spread.
proof fn lemma_spread_part(word: u64, which: Channel) -> (dropped: nat)
    ensures
        dropped <= 53,
        product(unit_fraction(word), spread(which)).exp == FRACTION_EXP + spread(which).exp
            + dropped,
        product(unit_fraction(word), spread(which)).mant < spread(which).mant * pow2(
            (53 - dropped) as nat,
        ),
{
    lemma2_to64();
    lemma2_to64_rest();
    let k = (word / 2048) as nat;
    let width = spread(which).mant;
    let exact: nat = k * width;
    assert(exact < MANT_LIMIT * MANT_LIMIT && exact + width <= width * MANT_LIMIT)
        by (nonlinear_arith)
        requires
            exact == k * width,
            k < MANT_LIMIT,
            width < MANT_LIMIT,
    ;
    lemma_excess_bits_at_most(exact, 53);
    let dropped = excess_bits(exact);
    let unit = pow2(dropped);
    let rest = pow2((53 - dropped) as nat);
    lemma_pow2_adds((53 - dropped) as nat, dropped);
    lemma_pow2_pos(dropped);
    lemma_pow2_pos((53 - dropped) as nat);
    assert(2 * exact < (2 * (width * rest) - 1) * unit && width * rest > 0) by (nonlinear_arith)
        requires
            exact + width <= width * MANT_LIMIT,
            rest * unit == MANT_LIMIT,
            2 * width > MANT_LIMIT,
            rest >= 1,
            unit >= 1,
    ;
    lemma_nearest_even_short_of(exact, unit, width * rest);
    dropped
}

/// The factor of the green channel lies between the double nearest to 0.6
/// and the double nearest to 0.7, whatever the random word: it is a multiple
/// of `2^-53` between these two. So it is below 0.7, and below 1.2, the end
/// of the range of red.
pub proof fn lemma_green_scale_range(word: u64)
    ensures
        tint_scale(word, Channel::Green).exp == FRACTION_EXP,
        BASE_MANT <= tint_scale(word, Channel::Green).mant <= GREEN_TOP_MANT,
        10 * tint_scale(word, Channel::Green).mant < 7 * MANT_LIMIT,
        10 * tint_scale(word, Channel::Green).mant < 12 * MANT_LIMIT,
{
    lemma2_to64();
    let dropped = lemma_spread_part(word, Channel::Green);
    let part = product(unit_fraction(word), spread(Channel::Green)).mant;
    let rest = pow2((53 - dropped) as nat);
    let gap = (56 - dropped) as nat;
    lemma_pow2_adds((53 - dropped) as nat, 3);
    lemma_pow2_pos((53 - dropped) as nat);
    let base = BASE_MANT as nat;
    let tenth = TENTH_MANT as nat;
    let aligned: nat = base * pow2(gap) + part;
    assert(aligned < MANT_LIMIT * (8 * rest) && 2 * aligned >= MANT_LIMIT * (8 * rest) && base * (8
        * rest) <= aligned && 4 * aligned <= (4 * GREEN_TOP_MANT + 1) * (8 * rest))
        by (nonlinear_arith)
        requires
            aligned == base * (8 * rest) + part,
            part < tenth * rest,
            base == BASE_MANT,
            tenth == TENTH_MANT,
            rest >= 1,
    ;
    lemma_excess_bits_known(aligned, gap);
    lemma_nearest_even_between(aligned, 8 * rest, base, GREEN_TOP_MANT as nat);
}

/// The factor of the blue channel lies between the double nearest to 0.6
/// and 1, whatever the random word: it is a multiple of `2^-53` between
/// these two.
pub proof fn lemma_blue_scale_range(word: u64)
    ensures
        tint_scale(word, Channel::Blue).exp == FRACTION_EXP,
        BASE_MANT <= tint_scale(word, Channel::Blue).mant <= MANT_LIMIT,
{
    lemma2_to64();
    let dropped = lemma_spread_part(word, Channel::Blue);
    let part = product(unit_fraction(word), spread(Channel::Blue)).mant;
    let rest = pow2((53 - dropped) as nat);
    let gap = (54 - dropped) as nat;
    lemma_pow2_adds((53 - dropped) as nat, 1);
    lemma_pow2_pos((53 - dropped) as nat);
    let base = BASE_MANT as nat;
    let tenth = TENTH_MANT as nat;
    let aligned: nat = base * pow2(gap) + part;
    assert(aligned < MANT_LIMIT * (2 * rest) && 2 * aligned >= MANT_LIMIT * (2 * rest) && base * (2
        * rest) <= aligned && 4 * aligned <= (4 * MANT_LIMIT + 1) * (2 * rest))
        by (nonlinear_arith)
        requires
            aligned == base * (2 * rest) + part,
            part < tenth * rest,
            base == BASE_MANT,
            tenth == TENTH_MANT,
            rest >= 1,
    ;
    lemma_excess_bits_known(aligned, gap);
    lemma_nearest_even_between(aligned, 2 * rest, base, MANT_LIMIT as nat);
}

/// The factor of the red channel lies between the double nearest to 0.6 and
/// the double nearest to 1.2, whatever the random word: below 1 it is a
/// multiple of `2^-53`, from 1 on a multiple of `2^-52`.
pub proof fn lemma_red_scale_range(word: u64)
    ensures
        ({
            let scale = tint_scale(word, Channel::Red);
            ||| scale.exp == FRACTION_EXP && BASE_MANT <= scale.mant <= MANT_LIMIT
            ||| scale.exp == FRACTION_EXP + 1 && MANT_LIMIT <= 2 * scale.mant <= 2 * BASE_MANT
        }),
{
    lemma2_to64();
    let dropped = lemma_spread_part(word, Channel::Red);
    let part = product(unit_fraction(word), spread(Channel::Red)).mant;
    let rest = pow2((53 - dropped) as nat);
    let gap = (53 - dropped) as nat;
    lemma_pow2_adds(gap, 1);
    lemma_pow2_pos(gap);
    let base = BASE_MANT as nat;
    let aligned: nat = base * pow2(gap) + part;
    if aligned < MANT_LIMIT * rest {
        assert(2 * aligned >= MANT_LIMIT * rest && base * rest <= aligned && 4 * aligned <= (4
            * MANT_LIMIT + 1) * rest) by (nonlinear_arith)
            requires
                aligned == base * rest + part,
                aligned < MANT_LIMIT * rest,
                base == BASE_MANT,
                rest >= 1,
        ;
        lemma_excess_bits_known(aligned, gap);
        lemma_nearest_even_between(aligned, rest, base, MANT_LIMIT as nat);
    } else {
        let half = (MANT_LIMIT / 2) as nat;
        assert(aligned < MANT_LIMIT * (2 * rest) && 2 * aligned >= MANT_LIMIT * (2 * rest) && half
            * (2 * rest) <= aligned && 4 * aligned <= (4 * base + 1) * (2 * rest))
            by (nonlinear_arith)
            requires
                aligned == base * rest + part,
                aligned >= MANT_LIMIT * rest,
                part < base * rest,
                base == BASE_MANT,
                half * 2 == MANT_LIMIT,
                rest >= 1,
        ;
        lemma_excess_bits_known(aligned, gap + 1);
        lemma_nearest_even_between(aligned, 2 * rest, half, base);
    }
}

} // verus!
