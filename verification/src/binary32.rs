//! IEEE 754 binary32 numbers, held as their bit patterns.
//!
//! The bit pattern is a sign bit, eight exponent bits and twenty-three fraction
//! bits. Every finite binary32 number is a whole multiple of 2^-149, so its value
//! is stated here as an integer: `units(bits)` is the value times 2^149. The
//! functions decide and compute on the bits, and their contracts say what that
//! means for the values.
//!
//! This file holds the values, their order, and the ways from a number to a
//! byte. [`rounding`] says which binary32 number is nearest to a fraction, and
//! [`arithmetic`] adds, subtracts, multiplies and divides by it; [`laws`] holds
//! what follows for zero, one, bytes and blends. [`decimal`] reads decimal
//! notation and [`writing`] writes it, with [`natural`] and [`wide`] for the
//! numbers of any size that this takes; [`round_trip`] shows that what is
//! written is read back.
pub mod arithmetic;
pub mod decimal;
pub mod laws;
pub mod natural;
pub mod round_trip;
pub mod rounding;
pub mod wide;
pub mod writing;

use vstd::arithmetic::div_mod::*;
use vstd::arithmetic::mul::*;
use vstd::arithmetic::power2::*;
use vstd::prelude::*;

verus! {

/// The bit pattern of zero.
pub const ZERO: u32 = 0;

/// The bit pattern of one.
pub const ONE: u32 = 0x3F80_0000;

/// The bit pattern of 255, the largest channel.
pub const MAX_CHANNEL: u32 = 0x437F_0000;

/// The sign bit alone: the bit pattern of negative zero.
pub const SIGN_BIT: u32 = 0x8000_0000;

/// The bit pattern of positive infinity.
pub const INFINITY: u32 = 0x7F80_0000;

/// The weight of the hidden bit within a significand: 2^23.
pub const HIDDEN_BIT: u32 = 0x0080_0000;

/// Whether the sign bit is set.
pub open spec fn is_negative(bits: u32) -> bool {
    bits >= 0x8000_0000
}

/// The bit pattern without its sign bit.
pub open spec fn magnitude(bits: u32) -> int {
    if bits >= 0x8000_0000 {
        bits - 0x8000_0000
    } else {
        bits as int
    }
}

/// Whether the bit pattern is that of no number.
pub open spec fn is_nan(bits: u32) -> bool {
    magnitude(bits) > 0x7F80_0000
}

/// Whether the bit pattern is that of a finite number.
pub open spec fn is_finite(bits: u32) -> bool {
    magnitude(bits) < 0x7F80_0000
}

/// The absolute value, times 2^149, of the number whose bit pattern without the
/// sign is `magnitude`. For an infinity this is 2^277, beyond every finite
/// number.
pub open spec fn scaled(magnitude: int) -> int {
    let exponent = magnitude / 0x80_0000;
    let fraction = magnitude % 0x80_0000;
    if exponent == 0 {
        fraction
    } else {
        (0x80_0000 + fraction) * pow2((exponent - 1) as nat)
    }
}

/// The value of a number, times 2^149. Meaningless for a NaN.
pub open spec fn units(bits: u32) -> int {
    if is_negative(bits) {
        -scaled(magnitude(bits))
    } else {
        scaled(magnitude(bits))
    }
}

/// One, in the unit of `units`: 2^149.
pub open spec fn one_unit() -> int {
    pow2(149) as int
}

/// `a <= b` as numbers: false when either is a NaN.
pub open spec fn le(a: u32, b: u32) -> bool {
    !is_nan(a) && !is_nan(b) && units(a) <= units(b)
}

/// The number brought into the range from zero to one: a number below zero
/// becomes zero, a number above one becomes one, and every other bit pattern,
/// a NaN or negative zero too, stays as it is.
pub open spec fn clamped_to_unit(bits: u32) -> u32 {
    if is_nan(bits) {
        bits
    } else if units(bits) < 0 {
        ZERO
    } else if units(bits) > one_unit() {
        ONE
    } else {
        bits
    }
}

/// Whether the number differs from one by less than 2^-23.
pub open spec fn near_one(bits: u32) -> bool {
    !is_nan(bits) && -(pow2(126) as int) < units(bits) - one_unit() < pow2(126)
}

/// The number rounded to the nearest integer, halves away from zero, and
/// narrowed to a byte: 0 for a NaN and for everything below zero, 255 for
/// everything above.
pub open spec fn rounded_byte(bits: u32) -> int {
    if is_nan(bits) || is_negative(bits) {
        0
    } else {
        let nearest = (units(bits) + pow2(148)) / (pow2(149) as int);
        if nearest > 255 {
            255
        } else {
            nearest
        }
    }
}

/// The number with its fraction cut off, narrowed to a byte: 0 for a NaN and
/// for everything below zero, 255 for everything above.
pub open spec fn truncated_byte(bits: u32) -> int {
    if is_nan(bits) || is_negative(bits) {
        0
    } else {
        let whole = units(bits) / (pow2(149) as int);
        if whole > 255 {
            255
        } else {
            whole
        }
    }
}

/// Powers of two that the constants of this file are made of.
pub proof fn lemma_powers()
    ensures
        pow2(23) == 0x80_0000,
        pow2(24) == 0x100_0000,
        pow2(149) == 0x80_0000 * pow2(126),
        pow2(149) == 2 * pow2(148),
        pow2(126) == 2 * pow2(125),
        pow2(149) == 0x100_0000 * pow2(125),
        pow2(149) == 0x1_0000 * pow2(133),
{
    lemma2_to64();
    lemma_pow2_adds(23, 126);
    lemma_pow2_adds(24, 125);
    lemma_pow2_adds(16, 133);
    lemma_pow2_unfold(149);
    lemma_pow2_unfold(126);
}

/// A larger bit pattern, the sign left out, is that of a larger absolute value.
pub proof fn lemma_scaled_increases(x: int, y: int)
    requires
        0 <= x < y <= 0x7F80_0000,
    ensures
        0 <= scaled(x) < scaled(y),
{
    let ex = x / 0x80_0000;
    let fx = x % 0x80_0000;
    let ey = y / 0x80_0000;
    let fy = y % 0x80_0000;
    let sx = if ex == 0 { 0 } else { (ex - 1) as nat };
    let sy = (ey - 1) as nat;
    lemma_pow2_pos(sx);
    if ex == ey {
        if ex != 0 {
            lemma_mul_strict_inequality(0x80_0000 + fx, 0x80_0000 + fy, pow2(sx) as int);
            lemma_mul_nonnegative(0x80_0000 + fx, pow2(sx) as int);
        }
    } else {
        assert(ex < ey);
        lemma_pow2_pos(sy);
        // scaled(y) is at least 2^23 * 2^sy
        lemma_mul_inequality(0x80_0000, 0x80_0000 + fy, pow2(sy) as int);
        if ex == 0 {
            lemma_mul_inequality(1, pow2(sy) as int, 0x80_0000);
        } else {
            // scaled(x) is below 2^24 * 2^sx == 2^23 * 2^(sx + 1) <= 2^23 * 2^sy
            lemma_mul_strict_inequality(0x80_0000 + fx, 0x100_0000, pow2(sx) as int);
            lemma_mul_nonnegative(0x80_0000 + fx, pow2(sx) as int);
            lemma_pow2_unfold(sx + 1);
            if sx + 1 < sy {
                lemma_pow2_strictly_increases(sx + 1, sy);
            }
            lemma_mul_inequality(pow2(sx + 1) as int, pow2(sy) as int, 0x80_0000);
            assert(0x100_0000 * pow2(sx) == 0x80_0000 * pow2(sx + 1)) by {
                lemma_mul_is_associative(0x80_0000, 2, pow2(sx) as int);
            }
        }
    }
}

/// The absolute values that the constants stand for.
pub proof fn lemma_scaled_constants()
    ensures
        scaled(0) == 0,
        scaled(ONE as int) == one_unit(),
        scaled(ONE - 1) == one_unit() - pow2(125),
        scaled(ONE - 2) == one_unit() - pow2(126),
        scaled(ONE + 1) == one_unit() + pow2(126),
        scaled(MAX_CHANNEL as int) == 255 * one_unit(),
{
    lemma_powers();
    assert(scaled(ONE as int) == 0x80_0000 * pow2(126));
    assert(scaled(ONE - 1) == 0xFF_FFFF * pow2(125));
    assert(scaled(ONE - 2) == 0xFF_FFFE * pow2(125));
    assert(scaled(ONE + 1) == 0x80_0001 * pow2(126));
    assert(scaled(MAX_CHANNEL as int) == 0xFF_0000 * pow2(133));
    lemma_mul_is_distributive_sub_other_way(pow2(125) as int, 0x100_0000, 1);
    lemma_mul_is_distributive_sub_other_way(pow2(125) as int, 0x100_0000, 2);
    lemma_mul_is_distributive_add_other_way(pow2(126) as int, 0x80_0000, 1);
    lemma_mul_is_associative(255, 0x1_0000, pow2(133) as int);
}

/// Among bit patterns without the sign, up to that of infinity, the order of
/// the patterns is the order of the absolute values.
pub proof fn lemma_scaled_order(x: int, y: int)
    requires
        0 <= x <= 0x7F80_0000,
        0 <= y <= 0x7F80_0000,
    ensures
        0 <= scaled(x),
        (x <= y) == (scaled(x) <= scaled(y)),
        (x < y) == (scaled(x) < scaled(y)),
        (x == 0) == (scaled(x) == 0),
{
    if x < y {
        lemma_scaled_increases(x, y);
    } else if y < x {
        lemma_scaled_increases(y, x);
    }
    if 0 < x {
        lemma_scaled_increases(0, x);
    }
}

/// A quotient is zero when the numerator is below the denominator.
proof fn lemma_small_quotient(n: int, d: int)
    by (nonlinear_arith)
    requires
        0 <= n < d,
    ensures
        n / d == 0,
{
}

/// A quotient is at least `k` when the numerator is at least `k` times the
/// denominator, and below `k` when the numerator is below that.
pub proof fn lemma_quotient_bounds(n: int, d: int, k: int)
    by (nonlinear_arith)
    requires
        0 < d,
    ensures
        n >= k * d ==> n / d >= k,
        n < k * d ==> n / d < k,
{
}

/// The significand and the scale of a number with a nonzero exponent field.
proof fn lemma_scaled_normal(x: int)
    requires
        0x80_0000 <= x <= 0x7F80_0000,
    ensures
        1 <= x / 0x80_0000 <= 255,
        scaled(x) == (0x80_0000 + x % 0x80_0000) * pow2((x / 0x80_0000 - 1) as nat),
{
}

/// Cancelling the scale of a number against 2^149: with exponent field `e`
/// and significand `m`, a numerator `c * m * 2^(e-1) + r * 2^(e-1)` over 2^149
/// is `c * m + r` over `2^(150-e)`.
proof fn lemma_cancel_scale(m: int, e: int, c: int, r: int)
    requires
        1 <= e <= 149,
        0 <= m,
        0 <= c,
        0 <= r,
    ensures
        pow2(149) == pow2((150 - e) as nat) * pow2((e - 1) as nat),
        (c * (m * pow2((e - 1) as nat)) + r * pow2((e - 1) as nat)) / (pow2(149) as int) == (c * m
            + r) / (pow2((150 - e) as nat) as int),
{
    let low = pow2((e - 1) as nat) as int;
    let high = pow2((150 - e) as nat) as int;
    lemma_pow2_pos((e - 1) as nat);
    lemma_pow2_pos((150 - e) as nat);
    lemma_pow2_adds((150 - e) as nat, (e - 1) as nat);
    assert(pow2(149) == high * low);
    lemma_mul_nonnegative(c, m);
    lemma_div_multiples_vanish_quotient(low, c * m + r, high);
    assert(low * (c * m + r) == c * (m * low) + r * low) by (nonlinear_arith);
    assert(low * high == high * low) by (nonlinear_arith);
}

/// Tells whether the bit pattern is that of no number.
pub fn is_not_a_number(bits: u32) -> (r: bool)
    ensures
        r == is_nan(bits),
{
    (if bits >= SIGN_BIT { bits - SIGN_BIT } else { bits }) > INFINITY
}

/// Tells whether `a <= b` holds of the two numbers.
pub fn is_le(a: u32, b: u32) -> (r: bool)
    ensures
        r == le(a, b),
{
    if is_not_a_number(a) || is_not_a_number(b) {
        return false;
    }
    let a_negative = a >= SIGN_BIT;
    let b_negative = b >= SIGN_BIT;
    let a_magnitude = if a_negative { a - SIGN_BIT } else { a };
    let b_magnitude = if b_negative { b - SIGN_BIT } else { b };
    proof {
        lemma_scaled_order(a_magnitude as int, b_magnitude as int);
        lemma_scaled_order(b_magnitude as int, a_magnitude as int);
    }
    if a_negative && b_negative {
        b_magnitude <= a_magnitude
    } else if a_negative {
        true
    } else if b_negative {
        a_magnitude == 0 && b_magnitude == 0
    } else {
        a_magnitude <= b_magnitude
    }
}

/// Brings the number into the range from zero to one.
pub fn clamp_to_unit(bits: u32) -> (r: u32)
    ensures
        r == clamped_to_unit(bits),
{
    proof {
        lemma_scaled_constants();
        if !is_nan(bits) {
            lemma_scaled_order(magnitude(bits), ONE as int);
            lemma_scaled_order(ONE as int, magnitude(bits));
        }
    }
    if is_not_a_number(bits) {
        bits
    } else if bits > SIGN_BIT {
        ZERO
    } else if bits == SIGN_BIT {
        bits
    } else if bits > ONE {
        ONE
    } else {
        bits
    }
}

/// Two numbers differ from one by less than 2^-23: one itself, and the largest
/// number below it.
pub proof fn lemma_near_one(bits: u32)
    ensures
        near_one(bits) == (bits == ONE || bits == ONE - 1),
{
    lemma_scaled_constants();
    lemma_powers();
    lemma_pow2_pos(125);
    lemma_pow2_strictly_increases(126, 149);
    if !is_nan(bits) {
        lemma_scaled_order(magnitude(bits), 0);
        if !is_negative(bits) {
            lemma_scaled_order(bits as int, ONE - 2);
            lemma_scaled_order(ONE + 1, bits as int);
        }
    }
}

/// Tells whether the number differs from one by less than 2^-23.
pub fn is_near_one(bits: u32) -> (r: bool)
    ensures
        r == near_one(bits),
{
    proof {
        lemma_near_one(bits);
    }
    bits == ONE || bits == ONE - 1
}

/// Rounds the number to the nearest integer, halves away from zero, and narrows
/// it to a byte.
pub fn round_to_byte(bits: u32) -> (r: u8)
    ensures
        r == rounded_byte(bits),
{
    if is_not_a_number(bits) || bits >= SIGN_BIT {
        return 0;
    }
    let exponent: u32 = bits / HIDDEN_BIT;
    proof {
        lemma_powers();
        lemma_pow2_pos(148);
    }
    if exponent < 126 {
        proof {
            // below one half
            lemma_scaled_order(bits as int, 0x3F00_0000);
            assert(scaled(0x3F00_0000) == 0x80_0000 * pow2(125));
            lemma_small_quotient(units(bits) + pow2(148), pow2(149) as int);
        }
        0
    } else if exponent >= 135 {
        proof {
            // 256 and above
            lemma_scaled_order(0x4380_0000, bits as int);
            assert(scaled(0x4380_0000) == 0x80_0000 * pow2(134));
            lemma_pow2_adds(8, 126);
            lemma_pow2_adds(23, 134);
            lemma_pow2_adds(8, 149);
            lemma2_to64();
            lemma_quotient_bounds(units(bits) + pow2(148), pow2(149) as int, 256);
        }
        255
    } else {
        let significand: u32 = HIDDEN_BIT + bits % HIDDEN_BIT;
        let shift: u32 = 150 - exponent;
        let half: u32 = 1u32 << (shift - 1);
        proof {
            lemma2_to64();
            lemma_pow2_strictly_increases((shift - 1) as nat, 24);
            vstd::bits::lemma_u32_shl_is_mul(1, (shift - 1) as u32);
        }
        let nearest: u32 = (significand + half) >> shift;
        proof {
            lemma_scaled_normal(bits as int);
            lemma_cancel_scale(significand as int, exponent as int, 1, pow2((shift - 1) as nat) as int);
            lemma_pow2_adds((shift - 1) as nat, (exponent - 1) as nat);
            assert(shift - 1 + (exponent - 1) == 148);
            vstd::bits::lemma_u32_shr_is_div((significand + half) as u32, shift);
            assert(1 * (significand * pow2((exponent - 1) as nat)) == units(bits));
        }
        if nearest > 255 {
            255
        } else {
            nearest as u8
        }
    }
}

/// Cuts the fraction of the number off and narrows it to a byte.
pub fn truncate_to_byte(bits: u32) -> (r: u8)
    ensures
        r == truncated_byte(bits),
{
    if is_not_a_number(bits) || bits >= SIGN_BIT {
        return 0;
    }
    let exponent: u32 = bits / HIDDEN_BIT;
    proof {
        lemma_powers();
        lemma_scaled_constants();
        lemma_pow2_pos(149);
    }
    if exponent < 127 {
        proof {
            // below one
            lemma_scaled_order(bits as int, ONE as int);
            lemma_scaled_order(bits as int, 0);
            lemma_small_quotient(units(bits), pow2(149) as int);
        }
        0
    } else if exponent >= 135 {
        proof {
            // 256 and above
            lemma_scaled_order(0x4380_0000, bits as int);
            assert(scaled(0x4380_0000) == 0x80_0000 * pow2(134));
            lemma_pow2_adds(23, 134);
            lemma_pow2_adds(8, 149);
            lemma2_to64();
            lemma_quotient_bounds(units(bits), pow2(149) as int, 256);
        }
        255
    } else {
        let significand: u32 = HIDDEN_BIT + bits % HIDDEN_BIT;
        let shift: u32 = 150 - exponent;
        let whole: u32 = significand >> shift;
        proof {
            lemma_scaled_normal(bits as int);
            lemma_cancel_scale(significand as int, exponent as int, 1, 0);
            vstd::bits::lemma_u32_shr_is_div(significand, shift);
            assert(0 * pow2((exponent - 1) as nat) == 0);
            assert(1 * (significand * pow2((exponent - 1) as nat)) == units(bits));
            assert(1 * significand + 0 == significand);
            lemma2_to64();
            lemma_pow2_strictly_increases(15, shift as nat);
            assert(whole <= 255) by {
                lemma_quotient_bounds(significand as int, pow2(shift as nat) as int, 256);
                assert(256 * pow2(shift as nat) >= 256 * pow2(16)) by (nonlinear_arith)
                    requires
                        pow2(shift as nat) >= pow2(16),
                ;
            }
        }
        whole as u8
    }
}

} // verus!
