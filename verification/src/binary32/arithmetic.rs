//! Sums, differences, products and quotients of binary32 numbers.
//!
//! Each result is the exact result rounded to the nearest binary32 number. A
//! result that is no number is the NaN with the quiet bit alone.
use crate::binary32::{
    INFINITY, is_nan, is_negative, is_not_a_number, lemma_scaled_order, magnitude, MAX_CHANNEL,
    scaled, SIGN_BIT, truncate_to_byte, truncated_byte, units,
};
use crate::binary32::rounding::{
    lemma_nearest_scaled, lemma_shifted_fraction, nearest_pattern, round_ratio,
    shifted_denominator, shifted_numerator,
};
use vstd::arithmetic::mul::*;
use vstd::arithmetic::power2::*;
use vstd::prelude::*;

verus! {

/// The bit pattern that stands for every result that is no number.
pub const NAN: u32 = 0x7FC0_0000;

/// The bit pattern of one hundred.
pub const HUNDRED: u32 = 0x42C8_0000;

/// Whether the bit pattern is that of an infinity.
pub open spec fn is_infinite(bits: u32) -> bool {
    magnitude(bits) == 0x7F80_0000
}

/// Whether the bit pattern is that of a zero, of either sign.
pub open spec fn is_zero(bits: u32) -> bool {
    magnitude(bits) == 0
}

/// The bit pattern with the given sign.
pub open spec fn with_sign(negative: bool, pattern: int) -> u32 {
    if negative {
        (pattern + 0x8000_0000) as u32
    } else {
        pattern as u32
    }
}

/// The number with the opposite sign.
pub open spec fn negated(bits: u32) -> u32 {
    with_sign(!is_negative(bits), magnitude(bits))
}

/// The number that a byte stands for.
pub open spec fn byte_number(value: u8) -> u32 {
    nearest_pattern(value * pow2(149), 1) as u32
}

/// The sum of two numbers, rounded to the nearest binary32 number. A sum
/// that is exactly zero is negative zero only where both numbers are negative.
pub open spec fn sum(a: u32, b: u32) -> u32 {
    if is_nan(a) || is_nan(b) {
        NAN
    } else if is_infinite(a) && is_infinite(b) {
        if is_negative(a) == is_negative(b) {
            a
        } else {
            NAN
        }
    } else if is_infinite(a) {
        a
    } else if is_infinite(b) {
        b
    } else {
        let exact = units(a) + units(b);
        if exact == 0 {
            with_sign(is_negative(a) && is_negative(b), 0)
        } else if exact < 0 {
            with_sign(true, nearest_pattern(-exact, 1))
        } else {
            with_sign(false, nearest_pattern(exact, 1))
        }
    }
}

/// The difference of two numbers, rounded to the nearest binary32 number.
pub open spec fn difference(a: u32, b: u32) -> u32 {
    sum(a, negated(b))
}

/// The product of two numbers, rounded to the nearest binary32 number.
pub open spec fn product(a: u32, b: u32) -> u32 {
    let negative = is_negative(a) != is_negative(b);
    if is_nan(a) || is_nan(b) {
        NAN
    } else if (is_infinite(a) && is_zero(b)) || (is_zero(a) && is_infinite(b)) {
        NAN
    } else if is_infinite(a) || is_infinite(b) {
        with_sign(negative, 0x7F80_0000)
    } else {
        with_sign(
            negative,
            nearest_pattern(scaled(magnitude(a)) * scaled(magnitude(b)), pow2(149) as int),
        )
    }
}

/// The quotient of two numbers, rounded to the nearest binary32 number.
pub open spec fn quotient(a: u32, b: u32) -> u32 {
    let negative = is_negative(a) != is_negative(b);
    if is_nan(a) || is_nan(b) {
        NAN
    } else if (is_infinite(a) && is_infinite(b)) || (is_zero(a) && is_zero(b)) {
        NAN
    } else if is_infinite(a) || is_zero(b) {
        with_sign(negative, 0x7F80_0000)
    } else if is_infinite(b) {
        with_sign(negative, 0)
    } else {
        with_sign(
            negative,
            nearest_pattern(scaled(magnitude(a)) * pow2(149), scaled(magnitude(b))),
        )
    }
}

/// The number at `ratio` of the way from `start` to `end`:
/// `start + (end - start) * ratio`, each step rounded to the nearest binary32
/// number.
pub open spec fn blend(start: u32, end: u32, ratio: u32) -> u32 {
    sum(start, product(difference(end, start), ratio))
}

/// The quotient of a byte by 255, computed in binary32 arithmetic.
pub open spec fn byte_fraction(byte: u8) -> u32 {
    quotient(byte_number(byte), MAX_CHANNEL)
}

/// 255 times the number, computed in binary32 arithmetic, with the fraction
/// cut off and narrowed to a byte: 0 for a NaN and for everything below zero,
/// 255 for everything above.
pub open spec fn scaled_byte(bits: u32) -> int {
    truncated_byte(product(bits, MAX_CHANNEL))
}

/// The significand and the scale of a finite number: its absolute value is
/// `significand * 2^scale` units.
pub fn decompose(magnitude: u32) -> (r: (u32, i32))
    requires
        magnitude < 0x7F80_0000,
    ensures
        r.0 < 0x100_0000,
        0 <= r.1 <= 253,
        scaled(magnitude as int) == r.0 * pow2(r.1 as nat),
        (r.0 == 0) == (magnitude == 0),
        r.1 > 0 ==> r.0 >= 0x80_0000,
        magnitude == r.1 * 0x80_0000 + r.0,
{
    let exponent = magnitude / 0x80_0000;
    let fraction = magnitude % 0x80_0000;
    proof {
        lemma2_to64();
        assert(fraction * pow2(0) == fraction);
    }
    if exponent == 0 {
        (fraction, 0)
    } else {
        (0x80_0000 + fraction, (exponent - 1) as i32)
    }
}

/// Gives the bit pattern its sign.
pub fn signed(negative: bool, pattern: u32) -> (r: u32)
    requires
        pattern <= 0x7F80_0000,
    ensures
        r == with_sign(negative, pattern as int),
{
    if negative {
        pattern + SIGN_BIT
    } else {
        pattern
    }
}

/// Changes the sign of a number.
pub fn negate(bits: u32) -> (r: u32)
    ensures
        r == negated(bits),
{
    if bits >= SIGN_BIT {
        bits - SIGN_BIT
    } else {
        bits + SIGN_BIT
    }
}

/// The number that a byte stands for.
pub fn from_byte(value: u8) -> (r: u32)
    ensures
        r == byte_number(value),
{
    round_ratio(value as u64, 1, 149)
}

/// A fraction given with a power of two above and one below is the fraction
/// at the difference of the two exponents.
pub proof fn lemma_nearest_at_exponents(num: int, den: int, up: nat, down: nat)
    requires
        0 <= num,
        0 < den,
    ensures
        0 <= num * pow2(up),
        0 < den * pow2(down),
        nearest_pattern(num * pow2(up), den * pow2(down)) == nearest_pattern(
            shifted_numerator(num, up - down),
            shifted_denominator(den, up - down),
        ),
{
    lemma_pow2_pos(up);
    lemma_pow2_pos(down);
    lemma_mul_nonnegative(num, pow2(up) as int);
    lemma_mul_strictly_positive(den, pow2(down) as int);
    lemma_shifted_fraction(num, den, up - down);
    let n = shifted_numerator(num, up - down);
    let d = shifted_denominator(den, up - down);
    if up >= down {
        let step = pow2((up - down) as nat) as int;
        let low = pow2(down) as int;
        assert((up - down) as nat + down == up);
        lemma_pow2_adds((up - down) as nat, down);
        assert(num * pow2(up) == (num * step) * low) by (nonlinear_arith)
            requires
                pow2(up) == step * low,
        ;
        lemma_nearest_scaled(n, d, low);
    } else {
        let step = pow2((down - up) as nat) as int;
        let low = pow2(up) as int;
        assert((down - up) as nat + up == down);
        lemma_pow2_adds((down - up) as nat, up);
        assert(den * pow2(down) == (den * step) * low) by (nonlinear_arith)
            requires
                pow2(down) == step * low,
        ;
        assert((-(up - down)) as nat == (down - up) as nat);
        lemma_nearest_scaled(n, d, low);
    }
}

/// Multiplies two numbers.
pub fn multiply(a: u32, b: u32) -> (r: u32)
    ensures
        r == product(a, b),
{
    if is_not_a_number(a) || is_not_a_number(b) {
        return NAN;
    }
    let negative = (a >= SIGN_BIT) != (b >= SIGN_BIT);
    let a_magnitude = if a >= SIGN_BIT { a - SIGN_BIT } else { a };
    let b_magnitude = if b >= SIGN_BIT { b - SIGN_BIT } else { b };
    if a_magnitude == INFINITY || b_magnitude == INFINITY {
        if a_magnitude == 0 || b_magnitude == 0 {
            return NAN;
        }
        return signed(negative, INFINITY);
    }
    let (a_significand, a_scale) = decompose(a_magnitude);
    let (b_significand, b_scale) = decompose(b_magnitude);
    proof {
        let m = a_significand as int * b_significand as int;
        let up = (a_scale + b_scale) as nat;
        assert(0 <= m < 0x100_0000 * 0x100_0000) by (nonlinear_arith)
            requires
                0 <= a_significand < 0x100_0000,
                0 <= b_significand < 0x100_0000,
                m == a_significand as int * b_significand as int,
        ;
        lemma_pow2_adds(a_scale as nat, b_scale as nat);
        assert(scaled(a_magnitude as int) * scaled(b_magnitude as int) == m * pow2(up))
            by (nonlinear_arith)
            requires
                scaled(a_magnitude as int) == a_significand * pow2(a_scale as nat),
                scaled(b_magnitude as int) == b_significand * pow2(b_scale as nat),
                pow2(up) == pow2(a_scale as nat) * pow2(b_scale as nat),
                m == a_significand as int * b_significand as int,
        ;
        lemma_nearest_at_exponents(m, 1, up, 149);
        assert(1 * pow2(149) == pow2(149));
    }
    let pattern = round_ratio(
        a_significand as u64 * b_significand as u64,
        1,
        a_scale + b_scale - 149,
    );
    signed(negative, pattern)
}

/// Divides one number by another.
pub fn divide(a: u32, b: u32) -> (r: u32)
    ensures
        r == quotient(a, b),
{
    if is_not_a_number(a) || is_not_a_number(b) {
        return NAN;
    }
    let negative = (a >= SIGN_BIT) != (b >= SIGN_BIT);
    let a_magnitude = if a >= SIGN_BIT { a - SIGN_BIT } else { a };
    let b_magnitude = if b >= SIGN_BIT { b - SIGN_BIT } else { b };
    if (a_magnitude == INFINITY && b_magnitude == INFINITY) || (a_magnitude == 0 && b_magnitude
        == 0) {
        return NAN;
    }
    if a_magnitude == INFINITY || b_magnitude == 0 {
        return signed(negative, INFINITY);
    }
    if b_magnitude == INFINITY {
        return signed(negative, 0);
    }
    let (a_significand, a_scale) = decompose(a_magnitude);
    let (b_significand, b_scale) = decompose(b_magnitude);
    proof {
        let up = (a_scale + 149) as nat;
        lemma_pow2_adds(a_scale as nat, 149);
        assert(scaled(a_magnitude as int) * pow2(149) == a_significand * pow2(up))
            by (nonlinear_arith)
            requires
                scaled(a_magnitude as int) == a_significand * pow2(a_scale as nat),
                pow2(up) == pow2(a_scale as nat) * pow2(149),
        ;
        lemma_nearest_at_exponents(a_significand as int, b_significand as int, up, b_scale as nat);
    }
    let pattern = round_ratio(a_significand as u64, b_significand as u64, a_scale + 149 - b_scale);
    signed(negative, pattern)
}

/// A small number added to a large one, or taken from it, leaves the large
/// one as the nearest: here the small one is less than a quarter of the distance
/// between the large one and its neighbours.
///
/// The large number has the significand `m` and the scale `t`; `delta` is the
/// size of the small one.
pub proof fn lemma_far_sum(m: int, t: nat, delta: int)
    requires
        0x80_0000 <= m < 0x100_0000,
        2 <= t <= 253,
        0 <= delta < pow2((t - 2) as nat),
    ensures
        nearest_pattern(m * pow2(t) + delta, 1) == t * 0x80_0000 + m,
        nearest_pattern(m * pow2(t) - delta, 1) == t * 0x80_0000 + m,
        m * pow2(t) - delta > 0,
{
    let q = pow2(t) as int;
    let half = pow2((t - 1) as nat) as int;
    let quarter = pow2((t - 2) as nat) as int;
    let large = m * q;
    lemma2_to64();
    lemma_pow2_pos(t);
    lemma_pow2_pos((t - 2) as nat);
    lemma_pow2_unfold(t);
    lemma_pow2_unfold((t - 1) as nat);
    lemma_pow2_adds(23, t);
    lemma_pow2_adds(24, t);
    lemma_pow2_adds(23, (t - 1) as nat);
    lemma_pow2_adds(24, (t - 1) as nat);
    assert(q == 2 * half && half == 2 * quarter);
    assert(0x80_0000 * q <= large < 0x100_0000 * q) by (nonlinear_arith)
        requires
            0x80_0000 <= m < 0x100_0000,
            large == m * q,
            0 < q,
    ;
    assert(large + q <= 0x100_0000 * q) by (nonlinear_arith)
        requires
            m < 0x100_0000,
            large == m * q,
            0 < q,
    ;
    assert(1 * q == q);
    assert(1 * half == half);
    // the sum
    {
        let x = large + delta;
        assert(x / 1 == x);
        crate::binary32::rounding::lemma_excess_bits(x, t);
        vstd::arithmetic::div_mod::lemma_fundamental_div_mod_converse(x, q, m, delta);
    }
    // the difference
    {
        let x = large - delta;
        assert(x / 1 == x);
        if delta == 0 {
            crate::binary32::rounding::lemma_excess_bits(x, t);
            vstd::arithmetic::div_mod::lemma_fundamental_div_mod_converse(x, q, m, 0);
        } else if m > 0x80_0000 {
            assert(large - q >= 0x80_0000 * q) by (nonlinear_arith)
                requires
                    m > 0x80_0000,
                    large == m * q,
                    0 < q,
            ;
            crate::binary32::rounding::lemma_excess_bits(x, t);
            assert(x == (m - 1) * q + (q - delta)) by (nonlinear_arith)
                requires
                    x == large - delta,
                    large == m * q,
            ;
            vstd::arithmetic::div_mod::lemma_fundamental_div_mod_converse(x, q, m - 1, q - delta);
        } else {
            // just below a power of two, where the numbers lie half as far apart
            assert(large == 0x100_0000 * half) by (nonlinear_arith)
                requires
                    m == 0x80_0000,
                    large == m * q,
                    q == 2 * half,
            ;
            assert(0x80_0000 * half <= x) by (nonlinear_arith)
                requires
                    x == large - delta,
                    large == 0x100_0000 * half,
                    delta < half,
                    0 < half,
            ;
            crate::binary32::rounding::lemma_excess_bits(x, (t - 1) as nat);
            assert(x == 0xFF_FFFF * half + (half - delta)) by (nonlinear_arith)
                requires
                    x == large - delta,
                    large == 0x100_0000 * half,
            ;
            vstd::arithmetic::div_mod::lemma_fundamental_div_mod_converse(
                x,
                half,
                0xFF_FFFF,
                half - delta,
            );
        }
    }
}

/// A number a little above a binary32 number rounds down to it: a little
/// is less than half the distance to the next one.
///
/// The binary32 number has the significand `m` and the scale `t`; `delta` is
/// what lies above it.
pub proof fn lemma_rounds_down(m: int, t: nat, delta: int)
    requires
        0x80_0000 <= m < 0x100_0000,
        1 <= t <= 253,
        0 <= delta,
        2 * delta < pow2(t),
    ensures
        nearest_pattern(m * pow2(t) + delta, 1) == t * 0x80_0000 + m,
{
    let q = pow2(t) as int;
    let large = m * q;
    let x = large + delta;
    lemma2_to64();
    lemma_pow2_pos(t);
    lemma_pow2_adds(23, t);
    lemma_pow2_adds(24, t);
    assert(0x80_0000 * q <= large && large + q <= 0x100_0000 * q) by (nonlinear_arith)
        requires
            0x80_0000 <= m < 0x100_0000,
            large == m * q,
            0 < q,
    ;
    assert(1 * q == q);
    assert(x / 1 == x);
    crate::binary32::rounding::lemma_excess_bits(x, t);
    vstd::arithmetic::div_mod::lemma_fundamental_div_mod_converse(x, q, m, delta);
}

/// Adds two numbers.
pub fn add(a: u32, b: u32) -> (r: u32)
    ensures
        r == sum(a, b),
{
    if is_not_a_number(a) || is_not_a_number(b) {
        return NAN;
    }
    let a_negative = a >= SIGN_BIT;
    let b_negative = b >= SIGN_BIT;
    let a_magnitude = if a_negative { a - SIGN_BIT } else { a };
    let b_magnitude = if b_negative { b - SIGN_BIT } else { b };
    if a_magnitude == INFINITY && b_magnitude == INFINITY {
        return if a_negative == b_negative {
            a
        } else {
            NAN
        };
    }
    if a_magnitude == INFINITY {
        return a;
    }
    if b_magnitude == INFINITY {
        return b;
    }
    // the larger of the two, by absolute value, and the smaller
    let a_leads = a_magnitude >= b_magnitude;
    let large = if a_leads { a_magnitude } else { b_magnitude };
    let small = if a_leads { b_magnitude } else { a_magnitude };
    let large_negative = if a_leads { a_negative } else { b_negative };
    let small_negative = if a_leads { b_negative } else { a_negative };
    let (large_significand, large_scale) = decompose(large);
    let (small_significand, small_scale) = decompose(small);
    let ghost exact = units(a) + units(b);
    let ghost large_units = scaled(large as int);
    let ghost small_units = scaled(small as int);
    proof {
        lemma_scaled_order(small as int, large as int);
        assert(exact == (if large_negative { -large_units } else { large_units }) + (
        if small_negative { -small_units } else { small_units }));
        lemma_pow2_pos(small_scale as nat);
        lemma_pow2_pos(large_scale as nat);
    }
    let gap = large_scale - small_scale;
    if gap > 25 {
        proof {
            // the small one is less than 2^(24 + small_scale) <= 2^(large_scale - 2)
            lemma2_to64();
            lemma_pow2_adds(24, small_scale as nat);
            if 24 + small_scale < large_scale - 2 {
                lemma_pow2_strictly_increases((24 + small_scale) as nat, (large_scale - 2) as nat);
            }
            assert(small_units < 0x100_0000 * pow2(small_scale as nat)) by (nonlinear_arith)
                requires
                    small_units == small_significand * pow2(small_scale as nat),
                    small_significand < 0x100_0000,
                    0 < pow2(small_scale as nat),
            ;
            lemma_far_sum(large_significand as int, large_scale as nat, small_units);
        }
        return if a_leads {
            a
        } else {
            b
        };
    }
    proof {
        lemma2_to64();
        lemma_pow2_strictly_increases(gap as nat, 26);
        assert(pow2(26) == 0x400_0000);
        assert(large_significand * pow2(gap as nat) < 0x100_0000 * 0x400_0000) by (nonlinear_arith)
            requires
                large_significand < 0x100_0000,
                0 < pow2(gap as nat) < 0x400_0000,
        ;
        vstd::bits::lemma_u64_shl_is_mul(large_significand as u64, gap as u64);
    }
    let wide: u64 = (large_significand as u64) << (gap as u64);
    proof {
        // large_units == wide * 2^small_scale
        assert(gap as nat + small_scale as nat == large_scale as nat);
        lemma_pow2_adds(gap as nat, small_scale as nat);
        assert(large_units == wide * pow2(small_scale as nat)) by (nonlinear_arith)
            requires
                large_units == large_significand * pow2(large_scale as nat),
                pow2(large_scale as nat) == pow2(gap as nat) * pow2(small_scale as nat),
                wide == large_significand * pow2(gap as nat),
        ;
        assert(wide >= small_significand) by (nonlinear_arith)
            requires
                wide * pow2(small_scale as nat) >= small_significand * pow2(small_scale as nat),
                0 < pow2(small_scale as nat),
        ;
    }
    let num: u64 = if large_negative == small_negative {
        wide + small_significand as u64
    } else {
        wide - small_significand as u64
    };
    proof {
        let q = pow2(small_scale as nat) as int;
        if large_negative == small_negative {
            assert(large_units + small_units == num * q) by (nonlinear_arith)
                requires
                    large_units == wide * q,
                    small_units == small_significand * q,
                    num == wide + small_significand,
            ;
        } else {
            assert(large_units - small_units == num * q) by (nonlinear_arith)
                requires
                    large_units == wide * q,
                    small_units == small_significand * q,
                    num == wide - small_significand,
            ;
        }
        assert((num == 0) == (num * q == 0)) by (nonlinear_arith)
            requires
                0 < q,
                0 <= num,
        ;
        assert(num > 0 ==> num * q > 0) by (nonlinear_arith)
            requires
                0 < q,
                0 <= num,
        ;
    }
    if num == 0 {
        return signed(a_negative && b_negative, 0);
    }
    let pattern = round_ratio(num, 1, small_scale);
    signed(large_negative, pattern)
}

/// Subtracts one number from another.
pub fn subtract(a: u32, b: u32) -> (r: u32)
    ensures
        r == difference(a, b),
{
    self::add(a, negate(b))
}

/// Computes the number at `ratio` of the way from `start` to `end`.
pub fn blend_numbers(start: u32, end: u32, ratio: u32) -> (r: u32)
    ensures
        r == blend(start, end, ratio),
{
    self::add(start, multiply(subtract(end, start), ratio))
}

/// Divides the byte by 255.
pub fn fraction_of_byte(byte: u8) -> (r: u32)
    ensures
        r == byte_fraction(byte),
{
    divide(from_byte(byte), MAX_CHANNEL)
}

/// Multiplies the number by 255, cuts the fraction off and narrows the result
/// to a byte.
pub fn scale_to_byte(bits: u32) -> (r: u8)
    ensures
        r == scaled_byte(bits),
{
    truncate_to_byte(multiply(bits, MAX_CHANNEL))
}

} // verus!
