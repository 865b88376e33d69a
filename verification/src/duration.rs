//! From the pixel width of a reservation's element to its length in seconds.
//!
//! The timeline draws booked time at a fixed scale, so the width of an
//! element is the only record of how long a reservation lasts.

use crate::decimal::{
    carry_of, fraction_carry, lemma_carry_is_quotient, lemma_pow10_positive, pow10, Decimal,
    DecimalModel,
};
use crate::text::decimal_value;
use vstd::arithmetic::div_mod::{lemma_div_denominator, lemma_hoist_over_denominator};
use vstd::prelude::*;

verus! {

/// Seconds of booked time that `PIXELS_PER_SPAN` pixels stand for.
pub const SECONDS_PER_SPAN: u32 = 3600;

/// Pixels that `SECONDS_PER_SPAN` seconds of booked time are drawn with.
pub const PIXELS_PER_SPAN: u32 = 58;

/// The integer nearest to `n / d`, for `d > 0`; a quotient halfway between
/// two integers goes to the one farther from zero.
pub open spec fn nearest(n: int, d: int) -> int {
    if n >= 0 {
        (2 * n + d) / (2 * d)
    } else {
        -((2 * (-n) + d) / (2 * d))
    }
}

/// The seconds that a width stands for: the width times `SECONDS_PER_SPAN`
/// over `PIXELS_PER_SPAN`, rounded to the nearest integer. The width is its
/// numerator over ten to the power of its scale, with every digit counted.
pub open spec fn duration_seconds(width: DecimalModel) -> int {
    nearest(
        width.numerator() * (SECONDS_PER_SPAN as int),
        (PIXELS_PER_SPAN as int) * pow10(width.scale()),
    )
}

/// `nearest(n, d)` is within one half of `n / d`, and where `n / d` lies
/// halfway between two integers it is the one farther from zero.
pub proof fn lemma_nearest_is_nearest(n: int, d: int)
    requires
        d > 0,
    ensures
        n >= 0 ==> 2 * d * nearest(n, d) - d <= 2 * n < 2 * d * nearest(n, d) + d,
        n < 0 ==> 2 * d * nearest(n, d) - d < 2 * n <= 2 * d * nearest(n, d) + d,
        nearest(-n, d) == -nearest(n, d),
{
    let m = if n >= 0 {
        n
    } else {
        -n
    };
    let q = (2 * m + d) / (2 * d);
    assert(2 * d * q <= 2 * m + d < 2 * d * q + 2 * d) by (nonlinear_arith)
        requires
            d > 0,
            q == (2 * m + d) / (2 * d),
    ;
    assert(m == 0 ==> q == 0) by (nonlinear_arith)
        requires
            d > 0,
            q == (2 * m + d) / (2 * d),
            2 * d * q <= 2 * m + d < 2 * d * q + 2 * d,
    ;
    assert(2 * d * (-q) == -(2 * d * q)) by (nonlinear_arith);
}

/// A multiple of the divisor has its own quotient for nearest integer.
pub proof fn lemma_nearest_of_multiple(k: int, d: int)
    requires
        d > 0,
    ensures
        nearest(k * d, d) == k,
{
    let m = if k >= 0 {
        k
    } else {
        -k
    };
    assert(k >= 0 ==> k * d >= 0) by (nonlinear_arith)
        requires
            d > 0,
    ;
    assert(k < 0 ==> k * d < 0 && -(k * d) == (-k) * d) by (nonlinear_arith)
        requires
            d > 0,
    ;
    assert((2 * (m * d) + d) / (2 * d) == m) by (nonlinear_arith)
        requires
            d > 0,
            m >= 0,
    ;
}

/// The duration, computed digit by digit: twice the seconds of a span times
/// the whole part, plus the whole part of that factor times the digits
/// behind the point, plus the pixels of a span, over twice those pixels.
pub open spec fn duration_by_digits(width: DecimalModel) -> int {
    let size = (7200 * width.whole + carry_of(width.fraction, 7200) + 58) / 116;
    if width.negative {
        -size
    } else {
        size as int
    }
}

/// Computing digit by digit loses nothing: it gives the nearest integer to
/// the exact width times 3600 over 58.
pub proof fn lemma_duration_by_digits(width: DecimalModel)
    ensures
        duration_seconds(width) == duration_by_digits(width),
{
    let p = pow10(width.scale());
    let m = decimal_value(width.fraction);
    let size = width.whole * p + m;
    let y = 7200 * m;
    let j = 7200 * width.whole + 58;
    lemma_pow10_positive(width.scale());
    lemma_carry_is_quotient(width.fraction, 7200);
    assert(width.whole * p >= 0) by (nonlinear_arith)
        requires
            width.whole >= 0,
            p >= 0,
    ;
    assert(2 * (size * 3600) + 58 * p == y + j * p) by (nonlinear_arith)
        requires
            size == width.whole * p + m,
            y == 7200 * m,
            j == 7200 * width.whole + 58,
    ;
    lemma_hoist_over_denominator(y as int, j as int, p);
    lemma_div_denominator((y + j * p) as int, p as int, 116);
    assert(p * 116 == 2 * (58 * p));
    assert((2 * (size * 3600) + 58 * p) / (2 * (58 * p)) == (y / p + j) / 116);
    if width.negative {
        assert(width.numerator() == -size);
        if size == 0 {
            assert(m == 0 && width.whole * p == 0);
            assert(width.whole == 0) by (nonlinear_arith)
                requires
                    width.whole * p == 0,
                    p >= 1,
                    width.whole >= 0,
            ;
        } else {
            assert(-(width.numerator() * 3600) == size * 3600);
        }
    }
}

/// The seconds that `width` pixels stand for on the timeline.
pub fn decode_duration_seconds(width: &Decimal) -> (seconds: i128)
    ensures
        seconds == duration_seconds(width@),
{
    proof {
        lemma_duration_by_digits(width@);
    }
    let factor: u32 = 2 * SECONDS_PER_SPAN;
    let divisor: u32 = 2 * PIXELS_PER_SPAN;
    assert(factor == 7200 && divisor == 116);
    let carry = fraction_carry(width, factor);
    assert(factor as u128 * (width.whole as u128) == 7200 * width.whole);
    let scaled: u128 = factor as u128 * (width.whole as u128);
    let total: u128 = scaled + carry as u128 + PIXELS_PER_SPAN as u128;
    let size = (total / divisor as u128) as i128;
    if width.negative {
        0 - size
    } else {
        size
    }
}

} // verus!
