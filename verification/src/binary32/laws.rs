//! What holds of the arithmetic of binary32 numbers: of zero and one, of
//! bytes, and of a blend between its ends.
use crate::binary32::{
    is_finite, is_nan, is_negative, lemma_powers, lemma_quotient_bounds, lemma_scaled_constants,
    lemma_scaled_order, magnitude, MAX_CHANNEL, near_one, ONE, one_unit, rounded_byte, scaled,
    units, ZERO,
};
use crate::binary32::arithmetic::{
    blend, byte_fraction, byte_number, difference, HUNDRED, is_infinite, is_zero,
    lemma_rounds_down, negated, product, quotient, scaled_byte, sum, with_sign,
};
use crate::binary32::rounding::{
    lemma_nearest_between, lemma_nearest_of_number, lemma_nearest_scaled, lemma_whole_number,
    nearest_pattern,
};
use vstd::arithmetic::div_mod::*;
use vstd::arithmetic::mul::*;
use vstd::arithmetic::power2::*;
use vstd::prelude::*;

verus! {

/// Giving a pattern its sign makes a number of that sign and that size.
pub proof fn lemma_with_sign(negative: bool, pattern: int)
    requires
        0 <= pattern <= 0x7F80_0000,
    ensures
        magnitude(with_sign(negative, pattern)) == pattern,
        is_negative(with_sign(negative, pattern)) == negative,
        !is_nan(with_sign(negative, pattern)),
        units(with_sign(negative, pattern)) == if negative {
            -scaled(pattern)
        } else {
            scaled(pattern)
        },
{
}

/// The number of a byte is the byte: finite, not negative, and of exactly
/// the byte's value.
pub proof fn lemma_byte_number(value: u8)
    ensures
        is_finite(byte_number(value)),
        !is_negative(byte_number(value)),
        units(byte_number(value)) == value * pow2(149),
        byte_number(value) == nearest_pattern(value * pow2(149), 1),
        rounded_byte(byte_number(value)) == value,
        (byte_number(value) == ZERO) == (value == 0),
{
    lemma_whole_number(value as int);
    lemma_rounded_between(byte_number(value), value as int, value as int);
}

/// A number that is not negative and lies between two whole numbers is
/// rounded to a byte between them.
pub proof fn lemma_rounded_between(bits: u32, low: int, high: int)
    requires
        !is_nan(bits),
        0 <= low <= high <= 255,
        low * pow2(149) <= units(bits) <= high * pow2(149),
    ensures
        low <= rounded_byte(bits) <= high,
{
    let one = pow2(149) as int;
    let half = pow2(148) as int;
    lemma_powers();
    lemma_pow2_pos(148);
    if is_negative(bits) {
        // then it is zero, and so is `low`
        lemma_scaled_order(magnitude(bits), 0);
        assert(low == 0) by (nonlinear_arith)
            requires
                low * one <= 0,
                0 < one,
                0 <= low,
        ;
    } else {
        let nearest = (units(bits) + half) / one;
        assert(low <= nearest) by (nonlinear_arith)
            requires
                nearest == (units(bits) + half) / one,
                low * one <= units(bits),
                0 < half,
                0 < one,
        ;
        assert(nearest <= high) by (nonlinear_arith)
            requires
                nearest == (units(bits) + half) / one,
                units(bits) <= high * one,
                one == 2 * half,
                0 < half,
        ;
    }
}

/// Zero divided by a number that is not zero is zero.
pub proof fn lemma_quotient_of_zero(b: u32)
    requires
        !is_nan(b),
        !is_zero(b),
    ensures
        is_zero(quotient(ZERO, b)),
        is_negative(quotient(ZERO, b)) == is_negative(b),
{
    if !is_infinite(b) {
        lemma_scaled_order(magnitude(b), 0);
        assert(scaled(0) == 0);
        assert(scaled(0) * pow2(149) == 0) by (nonlinear_arith)
            requires
                scaled(0) == 0,
        ;
        lemma_nearest_between(0, scaled(magnitude(b)), 0, 0);
    }
    lemma_with_sign(is_negative(b), 0);
}

/// A finite number that is not zero, divided by itself, is one.
pub proof fn lemma_quotient_by_itself(a: u32)
    requires
        is_finite(a),
        !is_zero(a),
    ensures
        quotient(a, a) == ONE,
{
    lemma_scaled_constants();
    lemma_scaled_order(magnitude(a), 0);
    lemma_mul_is_commutative(scaled(magnitude(a)), pow2(149) as int);
    lemma_nearest_of_number(ONE as int, scaled(magnitude(a)));
}

/// A finite number times zero is zero.
pub proof fn lemma_product_with_zero(a: u32, zero: u32)
    requires
        is_finite(a),
        is_zero(zero),
    ensures
        is_zero(product(a, zero)),
        is_negative(product(a, zero)) == (is_negative(a) != is_negative(zero)),
{
    lemma_pow2_pos(149);
    assert(scaled(magnitude(a)) * scaled(0) == 0) by (nonlinear_arith)
        requires
            scaled(0) == 0,
    ;
    assert(scaled(0) == 0);
    assert(scaled(0) * pow2(149) == 0) by (nonlinear_arith)
        requires
            scaled(0) == 0,
    ;
    lemma_nearest_between(0, pow2(149) as int, 0, 0);
    lemma_with_sign(is_negative(a) != is_negative(zero), 0);
}

/// A number times one is the number.
pub proof fn lemma_product_with_one(a: u32)
    requires
        !is_nan(a),
    ensures
        product(a, ONE) == a,
{
    lemma_scaled_constants();
    lemma_pow2_pos(149);
    if !is_infinite(a) {
        lemma_nearest_of_number(magnitude(a), pow2(149) as int);
    }
}

/// A finite number plus zero is the number; where the number is itself zero,
/// the sum is negative zero only if both zeros are negative.
pub proof fn lemma_sum_with_zero(a: u32, zero: u32)
    requires
        is_finite(a),
        is_zero(zero),
    ensures
        !is_zero(a) ==> sum(a, zero) == a,
        is_zero(a) ==> is_zero(sum(a, zero)) && is_negative(sum(a, zero)) == (is_negative(a)
            && is_negative(zero)),
        units(sum(a, zero)) == units(a),
{
    lemma_scaled_order(magnitude(a), 0);
    lemma_with_sign(is_negative(a) && is_negative(zero), 0);
    if !is_zero(a) {
        assert(scaled(magnitude(a)) * 1 == scaled(magnitude(a)));
        lemma_nearest_of_number(magnitude(a), 1);
    }
}

/// The difference of two bytes is exact.
pub proof fn lemma_difference_of_bytes(end: u8, start: u8)
    ensures
        is_finite(difference(byte_number(end), byte_number(start))),
        units(difference(byte_number(end), byte_number(start))) == (end - start) * pow2(149),
        is_negative(difference(byte_number(end), byte_number(start))) == (end < start),
{
    let one = pow2(149) as int;
    let from = byte_number(start);
    let to = byte_number(end);
    lemma_byte_number(start);
    lemma_byte_number(end);
    lemma_pow2_pos(149);
    let taken = negated(from);
    lemma_with_sign(!is_negative(from), magnitude(from));
    let exact = units(to) + units(taken);
    assert(exact == (end - start) * one) by (nonlinear_arith)
        requires
            exact == end * one - start * one,
    ;
    assert((exact == 0) == (end == start) && (exact < 0) == (end < start)) by (nonlinear_arith)
        requires
            exact == (end - start) * one,
            0 < one,
    ;
    if end > start {
        lemma_whole_number(end - start);
        lemma_with_sign(false, nearest_pattern(exact, 1));
    } else if end < start {
        lemma_whole_number(start - end);
        assert(-exact == (start - end) * one) by (nonlinear_arith)
            requires
                exact == (end - start) * one,
        ;
        lemma_with_sign(true, nearest_pattern(-exact, 1));
    } else {
        lemma_with_sign(is_negative(to) && is_negative(taken), 0);
    }
}

/// A sum of two finite numbers that is exactly a byte is the number of that
/// byte.
pub proof fn lemma_sum_to_byte(a: u32, b: u32, value: u8)
    requires
        is_finite(a),
        is_finite(b),
        !is_negative(a),
        units(a) + units(b) == value * pow2(149),
    ensures
        sum(a, b) == byte_number(value),
{
    lemma_byte_number(value);
    lemma_pow2_pos(149);
    let exact = units(a) + units(b);
    assert((exact == 0) == (value == 0) && exact >= 0) by (nonlinear_arith)
        requires
            exact == value * pow2(149),
            0 < pow2(149),
            0 <= value,
    ;
    if value == 0 {
        lemma_with_sign(false, 0);
    }
}

/// At the ratio zero a blend of two bytes is the first byte.
pub proof fn lemma_blend_at_zero(start: u8, end: u8, zero: u32)
    requires
        is_zero(zero),
    ensures
        rounded_byte(blend(byte_number(start), byte_number(end), zero)) == start,
{
    let from = byte_number(start);
    let gap = difference(byte_number(end), from);
    lemma_byte_number(start);
    lemma_difference_of_bytes(end, start);
    lemma_product_with_zero(gap, zero);
    lemma_sum_with_zero(from, product(gap, zero));
    lemma_pow2_pos(149);
    lemma_rounded_between(blend(from, byte_number(end), zero), start as int, start as int);
}

/// At the ratio one a blend of two bytes is the second byte.
pub proof fn lemma_blend_at_one(start: u8, end: u8)
    ensures
        blend(byte_number(start), byte_number(end), ONE) == byte_number(end),
        rounded_byte(blend(byte_number(start), byte_number(end), ONE)) == end,
{
    let from = byte_number(start);
    let gap = difference(byte_number(end), from);
    lemma_byte_number(start);
    lemma_byte_number(end);
    lemma_difference_of_bytes(end, start);
    lemma_product_with_one(gap);
    assert(units(from) + units(gap) == end * pow2(149)) by (nonlinear_arith)
        requires
            units(from) == start * pow2(149),
            units(gap) == (end - start) * pow2(149),
    ;
    lemma_sum_to_byte(from, gap, end);
}

/// Whether the number is a ratio: from zero to one, a zero of either sign
/// included.
pub open spec fn is_ratio(bits: u32) -> bool {
    &&& magnitude(bits) <= ONE
    &&& is_negative(bits) ==> is_zero(bits)
}

/// A percentage from 0 to 100, divided by 100, is a ratio.
pub proof fn lemma_ratio_of_percentage(percentage: u32)
    requires
        crate::binary32::le(ZERO, percentage),
        crate::binary32::le(percentage, HUNDRED),
    ensures
        is_ratio(quotient(percentage, HUNDRED)),
{
    let size = magnitude(percentage);
    lemma_scaled_constants();
    lemma_scaled_order(size, 0);
    lemma_scaled_order(size, HUNDRED as int);
    lemma_scaled_order(HUNDRED as int, 0);
    lemma_scaled_order(HUNDRED as int, 0x7F80_0000);
    lemma_pow2_pos(149);
    let n = scaled(size) * pow2(149);
    let d = scaled(HUNDRED as int);
    assert(0 <= n <= one_unit() * d) by (nonlinear_arith)
        requires
            n == scaled(size) * pow2(149),
            one_unit() == pow2(149),
            0 <= scaled(size) <= d,
            0 < pow2(149),
    ;
    assert(scaled(0) * d == 0) by (nonlinear_arith)
        requires
            scaled(0) == 0,
    ;
    lemma_nearest_between(n, d, 0, ONE as int);
    lemma_with_sign(is_negative(percentage), nearest_pattern(n, d));
    if is_negative(percentage) {
        // then the percentage is negative zero, and so is the ratio
        assert(n == 0) by (nonlinear_arith)
            requires
                n == scaled(size) * pow2(149),
                scaled(size) == 0,
        ;
        lemma_nearest_between(0, d, 0, 0);
    }
}

/// Between its ends a blend stays between them: for a ratio from zero to one,
/// the blend of two bytes, rounded to a byte, lies between the two bytes.
pub proof fn lemma_blend_between(start: u8, end: u8, ratio: u32)
    requires
        is_ratio(ratio),
    ensures
        start <= end ==> start <= rounded_byte(blend(byte_number(start), byte_number(end), ratio))
            <= end,
        end <= start ==> end <= rounded_byte(blend(byte_number(start), byte_number(end), ratio))
            <= start,
{
    let one = pow2(149) as int;
    let from = byte_number(start);
    let to = byte_number(end);
    let gap = difference(to, from);
    let part = product(gap, ratio);
    let total = sum(from, part);
    let low: u8 = if start <= end { start } else { end };
    let high: u8 = if start <= end { end } else { start };
    lemma_byte_number(start);
    lemma_byte_number(end);
    lemma_byte_number(low);
    lemma_byte_number(high);
    lemma_difference_of_bytes(end, start);
    lemma_scaled_constants();
    lemma_pow2_pos(149);
    // the part of the gap is no larger than the gap, and of its sign or zero
    let gap_size = scaled(magnitude(gap));
    let ratio_size = scaled(magnitude(ratio));
    lemma_scaled_order(magnitude(ratio), ONE as int);
    lemma_scaled_order(magnitude(ratio), 0);
    lemma_scaled_order(magnitude(gap), 0);
    let n = gap_size * ratio_size;
    assert(0 <= n <= gap_size * one) by (nonlinear_arith)
        requires
            n == gap_size * ratio_size,
            0 <= gap_size,
            0 <= ratio_size <= one,
    ;
    assert(scaled(0) * one == 0) by (nonlinear_arith)
        requires
            scaled(0) == 0,
    ;
    lemma_nearest_between(n, one, 0, magnitude(gap));
    let part_size = nearest_pattern(n, one);
    lemma_with_sign(is_negative(gap) != is_negative(ratio), part_size);
    lemma_scaled_order(part_size, magnitude(gap));
    lemma_scaled_order(part_size, 0);
    if is_negative(ratio) {
        assert(n == 0) by (nonlinear_arith)
            requires
                n == gap_size * ratio_size,
                ratio_size == 0,
        ;
        lemma_nearest_between(0, one, 0, 0);
    }
    assert(gap_size == (high - low) * one) by (nonlinear_arith)
        requires
            units(gap) == (end - start) * one,
            gap_size == if end < start {
                -units(gap)
            } else {
                units(gap)
            },
            high - low == if end < start {
                start - end
            } else {
                end - start
            },
    ;
    // the total lies between the two bytes
    let exact = units(from) + units(part);
    assert(low * one <= exact <= high * one) by (nonlinear_arith)
        requires
            exact == start * one + units(part),
            start <= end ==> 0 <= units(part) <= (high - low) * one,
            end < start ==> -((high - low) * one) <= units(part) <= 0,
            low == if start <= end {
                start
            } else {
                end
            },
            high == if start <= end {
                end
            } else {
                start
            },
    ;
    assert(0 <= low * one) by (nonlinear_arith)
        requires
            0 <= low,
            0 < one,
    ;
    if exact == 0 {
        lemma_with_sign(is_negative(from) && is_negative(part), 0);
    } else {
        assert(scaled(byte_number(low) as int) * 1 <= exact <= scaled(byte_number(high) as int) * 1);
        lemma_nearest_between(exact, 1, byte_number(low) as int, byte_number(high) as int);
        let size = nearest_pattern(exact, 1);
        lemma_with_sign(false, size);
        lemma_scaled_order(byte_number(low) as int, size);
        lemma_scaled_order(size, byte_number(high) as int);
    }
    lemma_rounded_between(total, low as int, high as int);
}

/// The difference of two numbers from zero to one is a finite number.
pub proof fn lemma_difference_in_unit_range(a: u32, b: u32)
    requires
        !is_nan(a),
        !is_nan(b),
        0 <= units(a) <= one_unit(),
        0 <= units(b) <= one_unit(),
    ensures
        is_finite(a),
        is_finite(b),
        is_finite(difference(a, b)),
        a == b ==> is_zero(difference(a, b)) && !is_negative(difference(a, b)),
{
    lemma_scaled_constants();
    lemma_pow2_strictly_increases(149, 277);
    lemma_pow2_adds(23, 254);
    lemma2_to64();
    assert(scaled(0x7F80_0000) == pow2(277)) by {
        assert(0x7F80_0000int / 0x80_0000 == 255);
        assert(0x7F80_0000int % 0x80_0000 == 0);
    }
    let taken = negated(b);
    lemma_with_sign(!is_negative(b), magnitude(b));
    let exact = units(a) + units(taken);
    assert(scaled(0) * 1 == 0);
    assert(scaled(ONE as int) * 1 == one_unit());
    if exact > 0 {
        lemma_nearest_between(exact, 1, 0, ONE as int);
        lemma_with_sign(false, nearest_pattern(exact, 1));
    } else if exact < 0 {
        lemma_nearest_between(-exact, 1, 0, ONE as int);
        lemma_with_sign(true, nearest_pattern(-exact, 1));
    } else {
        lemma_with_sign(is_negative(a) && is_negative(taken), 0);
    }
}

/// The bit pattern of 2^-23, the distance from one to the next number above
/// it.
pub const EPSILON: u32 = 0x3400_0000;

/// The number without its sign.
pub open spec fn absolute(bits: u32) -> u32 {
    with_sign(false, magnitude(bits))
}

/// `a < b` as numbers: false when either is a NaN.
pub open spec fn lt(a: u32, b: u32) -> bool {
    !is_nan(a) && !is_nan(b) && units(a) < units(b)
}

/// To differ from one by less than 2^-23 is to pass the test
/// `|bits - 1| < 2^-23` in binary32 arithmetic: the difference is rounded, and
/// the rounding decides nothing.
pub proof fn lemma_near_one_in_arithmetic(bits: u32)
    ensures
        near_one(bits) == lt(absolute(difference(bits, ONE)), EPSILON),
{
    let taken = negated(ONE);
    let gap = difference(bits, ONE);
    crate::binary32::lemma_near_one(bits);
    lemma_scaled_constants();
    lemma_powers();
    lemma2_to64();
    lemma_pow2_pos(125);
    lemma_pow2_pos(126);
    lemma_pow2_adds(23, 103);
    lemma_pow2_adds(23, 102);
    lemma_pow2_adds(23, 254);
    lemma_pow2_strictly_increases(126, 149);
    lemma_pow2_strictly_increases(149, 277);
    lemma_pow2_strictly_increases(149, 253);
    lemma_pow2_adds(24, 253);
    lemma_pow2_unfold(277);
    assert(scaled(EPSILON as int) == 0x80_0000 * pow2(103));
    assert(scaled(0x3380_0000) == 0x80_0000 * pow2(102));
    assert(scaled(0x7F80_0000) == pow2(277)) by {
        assert(0x7F80_0000int / 0x80_0000 == 255);
        assert(0x7F80_0000int % 0x80_0000 == 0);
    }
    lemma_with_sign(true, ONE as int);
    if !is_nan(bits) {
        let size = magnitude(bits);
        lemma_scaled_order(size, 0x7F80_0000);
        lemma_scaled_order(size, 0);
        if is_infinite(bits) {
            lemma_with_sign(false, 0x7F80_0000);
        } else {
            let exact = units(bits) + units(taken);
            assert(exact == units(bits) - one_unit());
            lemma_scaled_order(size, 0x7F7F_FFFF);
            assert(scaled(0x7F7F_FFFF) == 0xFF_FFFF * pow2(253));
            let far = if exact < 0 {
                -exact
            } else {
                exact
            };
            assert(far < pow2(277)) by (nonlinear_arith)
                requires
                    far <= 0xFF_FFFF * pow2(253) + pow2(149),
                    pow2(149) < pow2(253),
                    pow2(277) == 0x100_0000 * pow2(253),
            ;
            if exact == 0 {
                lemma_with_sign(is_negative(bits) && is_negative(taken), 0);
                lemma_with_sign(false, 0);
                assert(scaled(0) == 0);
            } else {
                assert(scaled(0x7F80_0000) * 1 == pow2(277));
                if far >= pow2(126) {
                    assert(scaled(EPSILON as int) * 1 == pow2(126));
                    lemma_nearest_between(far, 1, EPSILON as int, 0x7F80_0000);
                    let nearest = nearest_pattern(far, 1);
                    lemma_with_sign(exact < 0, nearest);
                    lemma_with_sign(false, nearest);
                    lemma_scaled_order(EPSILON as int, nearest);
                } else {
                    // then the number is the largest below one, 2^-24 away
                    assert(bits == ONE - 1);
                    assert(far == pow2(125));
                    assert(scaled(0x3380_0000) * 1 == far);
                    lemma_nearest_of_number(0x3380_0000, 1);
                    lemma_with_sign(true, 0x3380_0000);
                    lemma_with_sign(false, 0x3380_0000);
                }
            }
        }
    }
}

/// The binary exponent of `byte / 255` below one: the least `j` with
/// `255 <= byte * 2^j`.
pub open spec fn fraction_exponent(byte: int) -> int
    recommends
        1 <= byte <= 255,
{
    if byte >= 255 {
        0
    } else if byte >= 128 {
        1
    } else if byte >= 64 {
        2
    } else if byte >= 32 {
        3
    } else if byte >= 16 {
        4
    } else if byte >= 8 {
        5
    } else if byte >= 4 {
        6
    } else if byte >= 2 {
        7
    } else {
        8
    }
}

/// The bit pattern of `byte / 255`, rounded to the nearest binary32 number,
/// put together from its exponent and its significand.
pub open spec fn fraction_pattern(byte: u8) -> u32 {
    if byte == 0 {
        ZERO
    } else {
        let j = fraction_exponent(byte as int);
        let significand = (2 * byte * pow2((23 + j) as nat) + 255) / 510;
        ((126 - j) * 0x80_0000 + significand) as u32
    }
}

/// The size of a byte's numerator once it is scaled by its exponent: the
/// significand of `byte / 255` has exactly twenty-four bits.
pub proof fn lemma_fraction_scale(byte: int)
    requires
        1 <= byte <= 255,
    ensures
        0 <= fraction_exponent(byte) <= 8,
        255 * 0x80_0000 <= byte * pow2((23 + fraction_exponent(byte)) as nat) < 510 * 0x80_0000,
        2 * byte * pow2((23 + fraction_exponent(byte)) as nat) == 2 * (byte * pow2(
            (23 + fraction_exponent(byte)) as nat,
        )),
{
    lemma2_to64();
    let j = fraction_exponent(byte);
    let p = pow2((23 + j) as nat);
    if j == 0 {
        assert(p == 0x80_0000);
    } else if j == 1 {
        assert(p == 0x100_0000);
    } else if j == 2 {
        assert(p == 0x200_0000);
    } else if j == 3 {
        assert(p == 0x400_0000);
    } else if j == 4 {
        assert(p == 0x800_0000);
    } else if j == 5 {
        assert(p == 0x1000_0000);
    } else if j == 6 {
        assert(p == 0x2000_0000);
    } else if j == 7 {
        assert(p == 0x4000_0000);
    } else {
        assert(p == 0x8000_0000);
    }
    assert(2 * byte * p == 2 * (byte * p)) by (nonlinear_arith);
}

/// The quotient of a byte by 255 is a number from zero to one; its bit pattern
/// is that of its exponent and its significand.
pub proof fn lemma_fraction_pattern_in_range(byte: u8)
    ensures
        fraction_pattern(byte) <= ONE,
        !is_nan(fraction_pattern(byte)),
        0 <= units(fraction_pattern(byte)) <= one_unit(),
        byte != 0 ==> {
            let j = fraction_exponent(byte as int);
            let significand = (2 * byte * pow2((23 + j) as nat) + 255) / 510;
            &&& 0x80_0000 <= significand < 0x100_0000
            &&& fraction_pattern(byte) == (126 - j) * 0x80_0000 + significand
        },
{
    lemma_scaled_constants();
    lemma_pow2_pos(149);
    if byte != 0 {
        let j = fraction_exponent(byte as int);
        let numerator = byte * pow2((23 + j) as nat);
        let significand = (2 * byte * pow2((23 + j) as nat) + 255) / 510;
        lemma_fraction_scale(byte as int);
        assert(significand == (2 * numerator + 255) / 510);
        if j == 0 {
            assert(byte == 255);
            lemma2_to64();
            assert(numerator == 255 * 0x80_0000);
        } else {
            // 254 is the largest numerator of 255 that a byte below 255 reaches
            // at the scale of its exponent
            lemma_fraction_below_one(byte as int);
        }
        lemma_scaled_order(fraction_pattern(byte) as int, ONE as int);
    }
}

/// A byte below 255, at the scale of its exponent, stays below 254/255 of the
/// next power of two: rounding its significand carries into no new bit.
proof fn lemma_fraction_below_one(byte: int)
    requires
        1 <= byte < 255,
    ensures
        byte * pow2((23 + fraction_exponent(byte)) as nat) <= 508 * 0x80_0000,
{
    lemma2_to64();
    let j = fraction_exponent(byte);
    let p = pow2((23 + j) as nat) as int;
    let most: int = if j == 1 {
        254
    } else if j == 2 {
        127
    } else if j == 3 {
        63
    } else if j == 4 {
        31
    } else if j == 5 {
        15
    } else if j == 6 {
        7
    } else if j == 7 {
        3
    } else {
        1
    };
    assert(most * p <= 508 * 0x80_0000);
    lemma_mul_inequality(byte, most, p);
}

/// The significand of `byte / 255`, for a byte from 1 to 254: the quotient is
/// always rounded upwards, by less than half a unit in the last place.
pub proof fn lemma_fraction_significand(byte: int)
    requires
        1 <= byte < 255,
    ensures
        ({
            let j = fraction_exponent(byte);
            let numerator = byte * pow2((23 + j) as nat);
            let significand = (2 * byte * pow2((23 + j) as nat) + 255) / 510;
            &&& 1 <= j <= 8
            &&& 0x80_0000 <= significand < 0x100_0000
            &&& 1 <= 255 * significand - numerator <= 127
            &&& 256 * 0x80_0000 <= numerator <= 508 * 0x80_0000
        }),
{
    lemma2_to64();
    lemma_fraction_scale(byte);
    lemma_fraction_below_one(byte);
    let j = fraction_exponent(byte);
    let p = pow2((23 + j) as nat) as int;
    let numerator = byte * p;
    // the byte at the scale of half its exponent: from 128 to 254
    let half: int = if j == 1 {
        byte
    } else if j == 2 {
        2 * byte
    } else if j == 3 {
        4 * byte
    } else if j == 4 {
        8 * byte
    } else if j == 5 {
        16 * byte
    } else if j == 6 {
        32 * byte
    } else if j == 7 {
        64 * byte
    } else {
        128 * byte
    };
    // 2^24 == 255 * 65793 + 1
    assert(numerator == half * 0x100_0000) by {
        if j == 1 {
            assert(p == 0x100_0000);
        } else if j == 2 {
            assert(p == 0x200_0000);
            lemma_mul_is_associative(byte, 2, 0x100_0000);
        } else if j == 3 {
            assert(p == 0x400_0000);
            lemma_mul_is_associative(byte, 4, 0x100_0000);
        } else if j == 4 {
            assert(p == 0x800_0000);
            lemma_mul_is_associative(byte, 8, 0x100_0000);
        } else if j == 5 {
            assert(p == 0x1000_0000);
            lemma_mul_is_associative(byte, 16, 0x100_0000);
        } else if j == 6 {
            assert(p == 0x2000_0000);
            lemma_mul_is_associative(byte, 32, 0x100_0000);
        } else if j == 7 {
            assert(p == 0x4000_0000);
            lemma_mul_is_associative(byte, 64, 0x100_0000);
        } else {
            assert(p == 0x8000_0000);
            lemma_mul_is_associative(byte, 128, 0x100_0000);
        }
    }
    assert(128 <= half <= 254);
    assert(2 * numerator + 255 == 510 * (65793 * half) + (2 * half + 255));
    assert((2 * numerator + 255) / 510 == 65793 * half + 1);
}

/// The quotient of a byte by 255 is one for the byte 255, and otherwise
/// below the largest number below one: it is near one for the byte 255 alone.
pub proof fn lemma_fraction_pattern_near_one(byte: u8)
    ensures
        near_one(fraction_pattern(byte)) == (byte == 255),
        byte != 255 ==> fraction_pattern(byte) < ONE - 1,
        byte == 255 ==> fraction_pattern(byte) == ONE,
{
    lemma_fraction_pattern_in_range(byte);
    lemma_scaled_constants();
    lemma_powers();
    lemma_pow2_pos(149);
    lemma_pow2_pos(125);
    lemma_pow2_strictly_increases(126, 149);
    if byte != 0 && byte != 255 {
        let j = fraction_exponent(byte as int);
        let numerator = byte * pow2((23 + j) as nat);
        let significand = (2 * byte * pow2((23 + j) as nat) + 255) / 510;
        let bits = fraction_pattern(byte);
        lemma_fraction_significand(byte as int);
        assert(bits < ONE - 1) by {
            assert(significand <= 0xFF_0000) by {
                assert(510 * 0xFF_0000 >= 2 * numerator + 255);
                lemma_quotient_bounds(2 * numerator + 255, 510, 0xFF_0001);
            }
        }
        lemma_scaled_order(bits as int, ONE - 2);
    }
}

/// The quotient of a byte by 255 is the bit pattern that its exponent and its
/// significand make.
pub proof fn lemma_byte_fraction(byte: u8)
    ensures
        byte_fraction(byte) == fraction_pattern(byte),
{
    lemma_byte_number(255);
    lemma_whole_number(255);
    lemma_scaled_constants();
    lemma_nearest_of_number(MAX_CHANNEL as int, 1);
    assert(scaled(MAX_CHANNEL as int) * 1 == 255 * pow2(149));
    assert(byte_number(255) == MAX_CHANNEL);
    let one = pow2(149) as int;
    let top = byte_number(byte);
    let bottom = byte_number(255);
    lemma_byte_number(byte);
    lemma_byte_number(255);
    lemma_pow2_pos(149);
    lemma2_to64();
    assert(scaled(magnitude(top)) * one == (byte * one) * one);
    assert(scaled(magnitude(bottom)) == 255 * one);
    lemma_mul_nonnegative(byte as int, one);
    lemma_nearest_scaled(byte * one, 255, one);
    assert(nearest_pattern(scaled(magnitude(top)) * one, scaled(magnitude(bottom)))
        == nearest_pattern(byte * one, 255));
    if byte == 0 {
        assert(0 * one == 0);
        assert(scaled(0) == 0);
        assert(scaled(0) * 255 == 0);
        lemma_nearest_between(0, 255, 0, 0);
    } else {
        let j = fraction_exponent(byte as int);
        let scale = pow2((23 + j) as nat) as int;
        let numerator = byte * scale;
        let rest_scale = (126 - j) as nat;
        let spacing = pow2(rest_scale) as int;
        let significand = (2 * byte * pow2((23 + j) as nat) + 255) / 510;
        lemma_fraction_scale(byte as int);
        lemma_fraction_pattern_in_range(byte);
        lemma_pow2_pos(rest_scale);
        assert((23 + j) as nat + rest_scale == 149);
        lemma_pow2_adds((23 + j) as nat, rest_scale);
        let n = byte * one;
        assert(n == numerator * spacing) by (nonlinear_arith)
            requires
                n == byte * one,
                one == scale * spacing,
                numerator == byte * scale,
        ;
        // the quotient has twenty-four digits and `rest_scale` more
        lemma_pow2_adds(23, rest_scale);
        lemma_pow2_adds(24, rest_scale);
        assert(pow2(23 + rest_scale) * 255 <= n < pow2(24 + rest_scale) * 255) by (nonlinear_arith)
            requires
                n == numerator * spacing,
                255 * 0x80_0000 <= numerator < 510 * 0x80_0000,
                pow2(23 + rest_scale) == 0x80_0000 * spacing,
                pow2(24 + rest_scale) == 0x100_0000 * spacing,
                0 < spacing,
        ;
        assert(pow2(23 + rest_scale) <= n / 255 < pow2(24 + rest_scale));
        crate::binary32::rounding::lemma_excess_bits(n / 255, rest_scale);
        // and is rounded as the numerator over 255 is
        crate::binary32::rounding::lemma_round_scaled(numerator, 255, spacing);
        lemma_mul_is_commutative(255, spacing);
        assert(2 * byte * pow2((23 + j) as nat) == 2 * numerator);
        assert(crate::binary32::rounding::round_half_even(numerator, 255) == significand);
    }
}

/// 255 times the quotient of a byte by 255 is the byte again, in binary32
/// arithmetic too: what the division rounded off, the multiplication rounds
/// back.
pub proof fn lemma_product_of_fraction(byte: u8)
    ensures
        product(byte_fraction(byte), MAX_CHANNEL) == byte_number(byte),
{
    lemma_byte_fraction(byte);
    let one = pow2(149) as int;
    let fraction = fraction_pattern(byte);
    lemma_fraction_pattern_in_range(byte);
    lemma_fraction_pattern_near_one(byte);
    lemma_byte_number(byte);
    lemma_scaled_constants();
    lemma_pow2_pos(149);
    lemma2_to64();
    if byte == 0 {
        lemma_product_with_zero(MAX_CHANNEL, fraction);
        assert(scaled(0) == 0);
        assert(scaled(0) * scaled(MAX_CHANNEL as int) == 0) by (nonlinear_arith)
            requires
                scaled(0) == 0,
        ;
        assert(scaled(0) * one == 0) by (nonlinear_arith)
            requires
                scaled(0) == 0,
        ;
        lemma_nearest_between(0, one, 0, 0);
        assert(0 * one == 0);
        lemma_whole_number(0);
    } else if byte == 255 {
        lemma_nearest_of_number(MAX_CHANNEL as int, one);
        lemma_mul_is_commutative(scaled(MAX_CHANNEL as int), one);
        lemma_whole_number(255);
        lemma_nearest_of_number(MAX_CHANNEL as int, 1);
        assert(scaled(MAX_CHANNEL as int) * 1 == 255 * one);
    } else {
        let j = fraction_exponent(byte as int);
        let k = (23 + j) as nat;
        let t = (126 - j) as nat;
        let numerator = byte * pow2(k);
        let significand = (2 * byte * pow2(k) + 255) / 510;
        lemma_fraction_significand(byte as int);
        lemma_fraction_scale(byte as int);
        assert(fraction == (126 - j) * 0x80_0000 + significand);
        assert(fraction / 0x80_0000 == 127 - j && fraction % 0x80_0000 == significand - 0x80_0000)
            by {
            vstd::arithmetic::div_mod::lemma_fundamental_div_mod_converse(
                fraction as int,
                0x80_0000,
                127 - j,
                significand - 0x80_0000,
            );
        }
        let low = pow2(t) as int;
        lemma_pow2_pos(t);
        assert(scaled(fraction as int) == significand * low);
        assert(k + t == 149);
        lemma_pow2_adds(k, t);
        // the exact product, in units: 255 * significand * 2^t == byte * 2^149 + delta
        let delta = (255 * significand - numerator) * low;
        let exact = byte * one + delta;
        assert((significand * low) * (255 * one) == exact * one) by (nonlinear_arith)
            requires
                exact == byte * one + (255 * significand - numerator) * low,
                numerator == byte * pow2(k),
                one == pow2(k) * low,
        ;
        assert(0 <= delta) by (nonlinear_arith)
            requires
                delta == (255 * significand - numerator) * low,
                1 <= 255 * significand - numerator,
                0 < low,
        ;
        lemma_mul_nonnegative(byte as int, one);
        lemma_nearest_scaled(exact, 1, one);
        assert(1 * one == one);
        assert(nearest_pattern(scaled(fraction as int) * scaled(MAX_CHANNEL as int), one)
            == nearest_pattern(exact, 1));
        // the byte as a binary32 number: its significand and its scale
        let up = pow2((15 + j) as nat) as int;
        let high = (134 - j) as nat;
        let top = byte * up;
        lemma_pow2_pos((15 + j) as nat);
        assert((15 + j) as nat + high == 149);
        lemma_pow2_adds((15 + j) as nat, high);
        assert(byte * one == top * pow2(high)) by (nonlinear_arith)
            requires
                one == up * pow2(high),
                top == byte * up,
        ;
        // 2^(23 + j) == 2^8 * 2^(15 + j)
        assert(8 + (15 + j) as nat == k);
        lemma_pow2_adds(8, (15 + j) as nat);
        assert(0x80_0000 <= top < 0x100_0000) by (nonlinear_arith)
            requires
                256 * 0x80_0000 <= byte * pow2(k) < 510 * 0x80_0000,
                pow2(k) == 0x100 * up,
                top == byte * up,
                0 < up,
        ;
        // delta is less than half of 2^(134 - j): delta <= 127 * 2^(126 - j)
        assert(7 + t + 1 == high);
        lemma_pow2_adds(8, t);
        assert(2 * delta < pow2(high)) by (nonlinear_arith)
            requires
                delta == (255 * significand - numerator) * low,
                255 * significand - numerator <= 127,
                pow2(high) == 0x100 * low,
                0 < low,
        ;
        lemma_rounds_down(top, high, delta);
        lemma_rounds_down(top, high, 0);
    }
}

/// Writing the opacity of a byte gives the byte back: 255 times the quotient
/// of a byte by 255, with the fraction cut off, is the byte.
pub proof fn lemma_byte_round_trip(byte: u8)
    ensures
        scaled_byte(byte_fraction(byte)) == byte,
        near_one(byte_fraction(byte)) == (byte == 255),
        byte == 255 ==> byte_fraction(byte) == ONE,
        !is_nan(byte_fraction(byte)),
        0 <= units(byte_fraction(byte)) <= one_unit(),
{
    lemma_byte_fraction(byte);
    lemma_fraction_pattern_in_range(byte);
    lemma_product_of_fraction(byte);
    lemma_fraction_pattern_near_one(byte);
    lemma_byte_number(byte);
    lemma_pow2_pos(149);
    let one = pow2(149) as int;
    assert((byte * one) / one == byte) by (nonlinear_arith)
        requires
            0 < one,
            0 <= byte,
    ;
}

} // verus!
