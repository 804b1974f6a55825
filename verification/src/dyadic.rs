//! Rounding arithmetic on non-negative binary fractions.
//!
//! A value is `mant * 2^exp`. Products and sums are formed exactly and then
//! rounded to 53 significant bits, to nearest and on a tie to the even
//! significand. For operands whose exponents lie within `EXP_LIMIT` every
//! result is far from the smallest and the largest double, so this is the
//! arithmetic of double precision on them, carried out in integers.

use vstd::arithmetic::div_mod::{
    lemma_basic_div, lemma_div_denominator, lemma_fundamental_div_mod, lemma_mod_bound,
};
use vstd::arithmetic::power2::{
    lemma2_to64, lemma_pow2_adds, lemma_pow2_pos, lemma_pow2_strictly_increases, pow2,
};
use vstd::bits::{lemma_u64_pow2_no_overflow, lemma_u64_shl_is_mul, lemma_u64_shr_is_div};
use vstd::prelude::*;

verus! {

/// Two to the power of 53, the number of significant bits that a rounded
/// value keeps.
pub const MANT_LIMIT: u64 = 0x20_0000_0000_0000;

/// The largest magnitude of an exponent that the operations accept. A
/// product of two operands then lies between `2^-800` and `2^928`, inside
/// the range of normal doubles.
pub const EXP_LIMIT: i32 = 400;

/// A non-negative binary fraction as a mathematical value.
pub struct Dyadic {
    pub mant: nat,
    pub exp: int,
}

/// A non-negative binary fraction held in machine integers.
#[derive(Clone, Copy, Debug, PartialEq, Eq, Structural)]
pub struct Binary {
    pub mant: u64,
    pub exp: i32,
}

impl View for Binary {
    type V = Dyadic;

    open spec fn view(&self) -> Dyadic {
        Dyadic { mant: self.mant as nat, exp: self.exp as int }
    }
}

impl Binary {
    /// The significand fits the precision (it may be `2^53` itself, which
    /// rounding up can give) and the exponent is within the limit.
    pub open spec fn wf(self) -> bool {
        self.mant <= MANT_LIMIT && -EXP_LIMIT <= self.exp <= EXP_LIMIT
    }
}

/// How many low bits `n` has beyond the precision: the least `s` with
/// `n < 2^(53 + s)`.
pub open spec fn excess_bits(n: nat) -> nat
    decreases n,
{
    if n < MANT_LIMIT {
        0
    } else {
        1 + excess_bits(n / 2)
    }
}

/// `n / d` rounded to the nearest integer, a tie going to the even one.
pub open spec fn nearest_even(n: nat, d: nat) -> nat {
    let q = n / d;
    let twice = 2 * (n % d);
    if twice > d || (twice == d && q % 2 == 1) {
        q + 1
    } else {
        q
    }
}

/// `n * 2^exp` rounded to 53 significant bits.
pub open spec fn rounded(n: nat, exp: int) -> Dyadic {
    let s = excess_bits(n);
    Dyadic { mant: nearest_even(n, pow2(s)), exp: exp + s }
}

/// The rounded product of two values.
pub open spec fn product(a: Dyadic, b: Dyadic) -> Dyadic {
    rounded(a.mant * b.mant, a.exp + b.exp)
}

/// The rounded sum of two values.
pub open spec fn sum(a: Dyadic, b: Dyadic) -> Dyadic {
    if a.exp >= b.exp {
        rounded(a.mant * pow2((a.exp - b.exp) as nat) + b.mant, b.exp)
    } else {
        rounded(b.mant * pow2((b.exp - a.exp) as nat) + a.mant, a.exp)
    }
}

/// The integer part of a value.
pub open spec fn whole(d: Dyadic) -> nat {
    if d.exp >= 0 {
        d.mant * pow2(d.exp as nat)
    } else {
        d.mant / pow2((-d.exp) as nat)
    }
}

/// The integer part of a value, held at 255 where it is larger.
pub open spec fn whole_u8(d: Dyadic) -> u8 {
    if whole(d) >= 255 {
        255u8
    } else {
        whole(d) as u8
    }
}

/// Dropping eight bits at once: a value of more than 60 bits has eight more
/// excess bits than its 256th part.
proof fn lemma_excess_bits_byte(n: nat)
    requires
        n >= 0x1000_0000_0000_0000,
    ensures
        excess_bits(n) == 8 + excess_bits(n / 256),
{
    reveal_with_fuel(excess_bits, 9);
    assert(n / 2 / 2 / 2 / 2 / 2 / 2 / 2 / 2 == n / 256);
}

/// A power of two below `2^76` has an exponent below 76.
proof fn lemma_unit_bounds_bits(bits: nat)
    requires
        pow2(bits) < 0x1000_0000_0000_0000_0000,
    ensures
        bits < 76,
{
    lemma2_to64();
    lemma_pow2_adds(64, 12);
    if bits > 76 {
        lemma_pow2_strictly_increases(76, bits);
    }
}

/// One step of the search for the excess bits: dropping `step` more bits.
proof fn lemma_excess_step(n: nat, unit: nat, bits: nat, rest: nat, step: nat, factor: nat)
    requires
        unit == pow2(bits),
        unit >= 1,
        rest == n / unit,
        unit * rest <= n,
        factor == pow2(step),
        factor >= 2,
        rest >= factor,
    ensures
        unit * factor == pow2(bits + step),
        rest / factor == n / (unit * factor),
        (unit * factor) * (rest / factor) <= n,
        unit * factor <= n,
{
    lemma_pow2_adds(bits, step);
    lemma_div_denominator(n as int, unit as int, factor as int);
    lemma_fundamental_div_mod(rest as int, factor as int);
    assert((unit * factor) * (rest / factor) <= unit * rest && unit * factor <= unit * rest)
        by (nonlinear_arith)
        requires
            unit >= 1,
            factor >= 2,
            rest >= factor,
            factor * (rest / factor) <= rest,
    ;
}

/// The excess bits of `n` and the power of two that they stand for.
fn excess(n: u128) -> (out: (u32, u128))
    ensures
        out.0 == excess_bits(n as nat),
        out.1 == pow2(out.0 as nat),
        out.0 <= 75,
        1 <= out.1 < 0x1000_0000_0000_0000_0000,
        n / out.1 < MANT_LIMIT,
{
    let mut rest: u128 = n;
    let mut bits: u32 = 0;
    let mut unit: u128 = 1;
    proof {
        lemma2_to64();
    }
    while rest >= 0x1000_0000_0000_0000
        invariant
            unit == pow2(bits as nat),
            1 <= unit < 0x1000_0000_0000_0000_0000,
            rest == n / unit,
            excess_bits(n as nat) == bits + excess_bits(rest as nat),
            bits <= 75,
            unit * rest <= n,
        decreases rest,
    {
        proof {
            lemma2_to64();
            lemma_excess_bits_byte(rest as nat);
            lemma_excess_step(n as nat, unit as nat, bits as nat, rest as nat, 8, 256);
            assert(unit * 0x1000_0000_0000_0000 <= unit * rest) by (nonlinear_arith)
                requires
                    unit >= 1,
                    rest >= 0x1000_0000_0000_0000,
            ;
            lemma_unit_bounds_bits((bits + 8) as nat);
        }
        rest = rest / 256;
        unit = unit * 256;
        bits = bits + 8;
    }
    while rest >= 0x20_0000_0000_0000
        invariant
            unit == pow2(bits as nat),
            1 <= unit < 0x1000_0000_0000_0000_0000,
            rest == n / unit,
            excess_bits(n as nat) == bits + excess_bits(rest as nat),
            bits <= 75,
            unit * rest <= n,
        decreases rest,
    {
        proof {
            lemma2_to64();
            lemma_excess_step(n as nat, unit as nat, bits as nat, rest as nat, 1, 2);
            assert(unit * 0x20_0000_0000_0000 <= unit * rest) by (nonlinear_arith)
                requires
                    unit >= 1,
                    rest >= 0x20_0000_0000_0000,
            ;
            lemma_unit_bounds_bits((bits + 1) as nat);
        }
        rest = rest / 2;
        unit = unit * 2;
        bits = bits + 1;
    }
    (bits, unit)
}

/// Rounds `n * 2^exp` to 53 significant bits.
pub fn round(n: u128, exp: i32) -> (out: Binary)
    requires
        -2 * EXP_LIMIT <= exp <= 2 * EXP_LIMIT,
    ensures
        out@ == rounded(n as nat, exp as int),
        out.mant <= MANT_LIMIT,
        exp <= out.exp <= exp + 75,
{
    let (bits, unit) = excess(n);
    let quotient: u128 = n / unit;
    let twice: u128 = 2 * (n % unit);
    let mant: u128 = if twice > unit || (twice == unit && quotient % 2 == 1) {
        quotient + 1
    } else {
        quotient
    };
    Binary { mant: mant as u64, exp: exp + bits as i32 }
}

/// The rounded product of two values.
pub fn times(a: Binary, b: Binary) -> (out: Binary)
    requires
        a.wf(),
        b.wf(),
    ensures
        out@ == product(a@, b@),
        out.mant <= MANT_LIMIT,
        a.exp + b.exp <= out.exp <= a.exp + b.exp + 75,
{
    assert(a.mant * b.mant <= MANT_LIMIT * MANT_LIMIT) by (nonlinear_arith)
        requires
            a.mant <= MANT_LIMIT,
            b.mant <= MANT_LIMIT,
    ;
    round((a.mant as u128) * (b.mant as u128), a.exp + b.exp)
}

/// The rounded sum of two values whose exponents lie at most 63 apart, so
/// that the exact sum fits 128 bits.
pub fn plus(a: Binary, b: Binary) -> (out: Binary)
    requires
        a.wf(),
        b.wf(),
        -63 <= a.exp - b.exp <= 63,
    ensures
        out@ == sum(a@, b@),
        out.mant <= MANT_LIMIT,
        out.exp >= a.exp || out.exp >= b.exp,
        out.exp <= a.exp + 75,
        out.exp <= b.exp + 75,
{
    if a.exp >= b.exp {
        plus_aligned(a, b)
    } else {
        plus_aligned(b, a)
    }
}

/// The rounded sum where the first value has the larger exponent.
fn plus_aligned(high: Binary, low: Binary) -> (out: Binary)
    requires
        high.wf(),
        low.wf(),
        0 <= high.exp - low.exp <= 63,
    ensures
        out@ == rounded(
            (high.mant as nat) * pow2((high.exp - low.exp) as nat) + (low.mant as nat),
            low.exp as int,
        ),
        out.mant <= MANT_LIMIT,
        low.exp <= out.exp <= low.exp + 75,
{
    let gap: u64 = (high.exp - low.exp) as u64;
    proof {
        lemma_u64_pow2_no_overflow(gap as nat);
        lemma_u64_shl_is_mul(1, gap);
    }
    let scale: u64 = 1u64 << gap;
    assert(high.mant * scale <= MANT_LIMIT * u64::MAX) by (nonlinear_arith)
        requires
            high.mant <= MANT_LIMIT,
            scale <= u64::MAX,
    ;
    let exact: u128 = (high.mant as u128) * (scale as u128) + (low.mant as u128);
    round(exact, low.exp)
}

/// The integer part of a value, held at 255 where it is larger.
pub fn truncate(value: Binary) -> (out: u8)
    requires
        value.wf(),
    ensures
        out == whole_u8(value@),
{
    if value.mant == 0 {
        proof {
            lemma_whole_of_zero(value@);
        }
        0
    } else if value.exp >= 8 {
        proof {
            lemma_whole_large(value@);
        }
        255
    } else if value.exp >= 0 {
        let shift: u64 = value.exp as u64;
        proof {
            lemma2_to64();
            lemma_pow2_strictly_increases(shift as nat, 8);
            assert(value.mant * pow2(shift as nat) <= MANT_LIMIT * 256) by (nonlinear_arith)
                requires
                    value.mant <= MANT_LIMIT,
                    pow2(shift as nat) < 256,
            ;
            lemma_u64_shl_is_mul(value.mant, shift);
        }
        let scaled: u64 = value.mant << shift;
        if scaled >= 255 {
            255
        } else {
            scaled as u8
        }
    } else if value.exp <= -64 {
        proof {
            lemma_whole_small(value@);
        }
        0
    } else {
        let shift: u64 = (-value.exp) as u64;
        proof {
            lemma_u64_shr_is_div(value.mant, shift);
        }
        let kept: u64 = value.mant >> shift;
        if kept >= 255 {
            255
        } else {
            kept as u8
        }
    }
}

/// Zero has no integer part, whatever its exponent.
proof fn lemma_whole_of_zero(d: Dyadic)
    requires
        d.mant == 0,
    ensures
        whole(d) == 0,
{
    if d.exp >= 0 {
        assert(0 * pow2(d.exp as nat) == 0) by (nonlinear_arith);
    } else {
        lemma_pow2_pos((-d.exp) as nat);
    }
}

/// A value with a positive significand and an exponent of eight or more is
/// at least 256.
proof fn lemma_whole_large(d: Dyadic)
    requires
        d.mant >= 1,
        d.exp >= 8,
    ensures
        whole(d) >= 256,
{
    lemma2_to64();
    if d.exp > 8 {
        lemma_pow2_strictly_increases(8, d.exp as nat);
    }
    assert(d.mant * pow2(d.exp as nat) >= 256) by (nonlinear_arith)
        requires
            d.mant >= 1,
            pow2(d.exp as nat) >= 256,
    ;
}

/// A value of at most 53 bits divided by `2^64` or more has no integer part.
proof fn lemma_whole_small(d: Dyadic)
    requires
        d.mant <= MANT_LIMIT,
        d.exp <= -64,
    ensures
        whole(d) == 0,
{
    lemma2_to64();
    let e = (-d.exp) as nat;
    if e > 64 {
        lemma_pow2_strictly_increases(64, e);
    }
    lemma_basic_div(d.mant as int, pow2(e) as int);
}

/// A value of exactly `53 + extra` bits, or of at most 53 bits where `extra`
/// is zero, has `extra` excess bits.
pub proof fn lemma_excess_bits_known(n: nat, extra: nat)
    requires
        n < MANT_LIMIT * pow2(extra),
        extra > 0 ==> 2 * n >= MANT_LIMIT * pow2(extra),
    ensures
        excess_bits(n) == extra,
    decreases extra,
{
    lemma2_to64();
    if extra > 0 {
        lemma_pow2_adds((extra - 1) as nat, 1);
        let half = pow2((extra - 1) as nat);
        lemma_pow2_pos((extra - 1) as nat);
        assert(MANT_LIMIT * pow2(extra) == 2 * (MANT_LIMIT * half)) by (nonlinear_arith)
            requires
                pow2(extra) == half * 2,
        ;
        assert(MANT_LIMIT * half >= MANT_LIMIT) by (nonlinear_arith)
            requires
                half >= 1,
        ;
        lemma_excess_bits_known(n / 2, (extra - 1) as nat);
    }
}

/// A value of at most `53 + extra` bits has at most `extra` excess bits.
pub proof fn lemma_excess_bits_at_most(n: nat, extra: nat)
    requires
        n < MANT_LIMIT * pow2(extra),
    ensures
        excess_bits(n) <= extra,
    decreases extra,
{
    lemma2_to64();
    if extra > 0 && n >= MANT_LIMIT {
        lemma_pow2_adds((extra - 1) as nat, 1);
        let half = pow2((extra - 1) as nat);
        assert(MANT_LIMIT * pow2(extra) == 2 * (MANT_LIMIT * half)) by (nonlinear_arith)
            requires
                pow2(extra) == half * 2,
        ;
        lemma_excess_bits_at_most(n / 2, (extra - 1) as nat);
    }
}

/// A quotient that lies more than a half below `bound` rounds to less than
/// `bound`.
pub proof fn lemma_nearest_even_short_of(n: nat, d: nat, bound: nat)
    requires
        d > 0,
        bound > 0,
        2 * n < (2 * bound - 1) * d,
    ensures
        nearest_even(n, d) < bound,
{
    lemma_fundamental_div_mod(n as int, d as int);
    let q = n / d;
    let r = n % d;
    assert(0 <= r < d) by {
        lemma_mod_bound(n as int, d as int);
    }
    assert(q < bound && (q == bound - 1 ==> 2 * r < d)) by (nonlinear_arith)
        requires
            n == d * q + r,
            0 <= r < d,
            2 * n < (2 * bound - 1) * d,
            d > 0,
    ;
}

/// A quotient between `low` and a quarter above `high` rounds to a value
/// between `low` and `high`.
pub proof fn lemma_nearest_even_between(n: nat, d: nat, low: nat, high: nat)
    requires
        d > 0,
        low * d <= n,
        4 * n <= (4 * high + 1) * d,
    ensures
        low <= nearest_even(n, d) <= high,
{
    lemma_fundamental_div_mod(n as int, d as int);
    let q = n / d;
    let r = n % d;
    assert(0 <= r < d) by {
        lemma_mod_bound(n as int, d as int);
    }
    assert(low <= q <= high && (q == high ==> 4 * r <= d)) by (nonlinear_arith)
        requires
            n == d * q + r,
            0 <= r < d,
            low * d <= n,
            4 * n <= (4 * high + 1) * d,
            d > 0,
    ;
}

} // verus!
