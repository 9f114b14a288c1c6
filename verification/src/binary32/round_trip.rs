//! What is written of a binary32 number is read back as the same number.
use crate::binary32::{is_nan, is_negative, magnitude, scaled};
use crate::binary32::arithmetic::with_sign;
use crate::binary32::decimal::{
    decimal_digits, decimal_exponent, decimal_pattern, digit_of, digits_number, fraction_end,
    fraction_start, has_exponent, is_decimal, is_digit, lemma_decimal_zero, lemma_digits_end,
    lemma_power_of_ten_positive, lower_case, number_of, power_of_ten, sign_end, spells, whole_end,
};
use crate::binary32::rounding::{lemma_nearest_of_number, lemma_nearest_scaled};
use crate::binary32::writing::{
    all_decimal, decimal_expansion, digits_text, exact_decimal, expansion_number,
    lemma_exact_decimal, lemma_expansion_spells, lemma_power_of_five, number_text, positional,
    power_of_five, shortest_decimal, shortest_from, without_zeros, zeros,
};
use crate::utils::format::decimal_digit;
use vstd::arithmetic::div_mod::*;
use vstd::arithmetic::mul::*;
use vstd::arithmetic::power2::*;
use vstd::prelude::*;

verus! {

/// All the digits of a binary32 number are read as the number.
pub proof fn lemma_exact_is_read(pattern: int)
    requires
        0 < pattern < 0x7F80_0000,
    ensures
        decimal_pattern(exact_decimal(pattern), -149) == pattern,
{
    let value = scaled(pattern);
    let five = power_of_five(149);
    let ten = power_of_ten(149);
    lemma_power_of_five(149);
    lemma_power_of_ten_positive(149);
    crate::binary32::lemma_scaled_order(pattern, 0);
    assert((value * five) * pow2(149) == value * ten) by (nonlinear_arith)
        requires
            five * pow2(149) == ten,
    ;
    lemma_nearest_of_number(pattern, ten);
}

/// A zero at the end of the digits is worth a power of ten.
pub proof fn lemma_decimal_shift(digits: int, exponent: int)
    requires
        0 <= digits,
    ensures
        decimal_pattern(10 * digits, exponent) == decimal_pattern(digits, exponent + 1),
{
    let one = pow2(149) as int;
    lemma_pow2_pos(149);
    if exponent >= 0 {
        let ten = power_of_ten(exponent as nat);
        assert(power_of_ten((exponent + 1) as nat) == 10 * ten);
        assert((10 * digits) * ten * one == digits * (10 * ten) * one) by (nonlinear_arith);
    } else if exponent == -1 {
        assert(power_of_ten(1) == 10 * power_of_ten(0));
        assert(power_of_ten(0) == 1);
        lemma_mul_nonnegative(digits, one);
        lemma_nearest_scaled(digits * one, 1, 10);
        assert((10 * digits) * one == (digits * one) * 10) by (nonlinear_arith);
        assert(digits * power_of_ten(0) * one == digits * one) by (nonlinear_arith)
            requires
                power_of_ten(0) == 1,
        ;
    } else {
        let ten = power_of_ten((-exponent - 1) as nat);
        lemma_power_of_ten_positive((-exponent - 1) as nat);
        assert(power_of_ten((-exponent) as nat) == 10 * ten);
        lemma_mul_nonnegative(digits, one);
        lemma_nearest_scaled(digits * one, ten, 10);
        assert((10 * digits) * one == (digits * one) * 10) by (nonlinear_arith);
        assert(10 * ten == ten * 10);
        assert((-(exponent + 1)) as nat == (-exponent - 1) as nat);
    }
}

/// Without the zeros at its end a decimal number is read as before.
pub proof fn lemma_without_zeros(digits: int, exponent: int)
    requires
        1 <= digits,
    ensures
        decimal_pattern(without_zeros(digits, exponent).0, without_zeros(digits, exponent).1)
            == decimal_pattern(digits, exponent),
        1 <= without_zeros(digits, exponent).0,
    decreases digits,
{
    if digits >= 10 && digits % 10 == 0 {
        lemma_fundamental_div_mod(digits, 10);
        lemma_without_zeros(digits / 10, exponent + 1);
        lemma_decimal_shift(digits / 10, exponent);
    }
}

/// The decimal that the search finds is read as the number.
pub proof fn lemma_shortest_from_is_read(pattern: int, expansion: Seq<u8>, count: nat)
    requires
        0 < pattern < 0x7F80_0000,
        expansion == decimal_expansion(exact_decimal(pattern)),
        1 <= count,
    ensures
        decimal_pattern(
            shortest_from(pattern, expansion, count).0,
            shortest_from(pattern, expansion, count).1,
        ) == pattern,
        1 <= shortest_from(pattern, expansion, count).0,
    decreases expansion.len() - count,
{
    lemma_exact_decimal(pattern);
    lemma_expansion_spells(exact_decimal(pattern));
    if count >= expansion.len() {
        lemma_exact_is_read(pattern);
    } else {
        let prefix = expansion.take(count as int);
        assert(prefix[0] == expansion[0]);
        assert forall|i: int| 0 <= i < prefix.len() implies #[trigger] prefix[i] <= 9 by {
            assert(prefix[i] == expansion[i]);
        }
        crate::binary32::writing::lemma_expansion_long(prefix);
        lemma_power_of_ten_positive((count - 1) as nat);
        lemma_shortest_from_is_read(pattern, expansion, count + 1);
    }
}

/// The shortest decimal of a binary32 number is read as the number.
pub proof fn lemma_shortest_is_read(pattern: int)
    requires
        0 < pattern < 0x7F80_0000,
    ensures
        decimal_pattern(shortest_decimal(pattern).0, shortest_decimal(pattern).1) == pattern,
        1 <= shortest_decimal(pattern).0,
{
    let expansion = decimal_expansion(exact_decimal(pattern));
    lemma_shortest_from_is_read(pattern, expansion, 1);
    let found = shortest_from(pattern, expansion, 1);
    lemma_without_zeros(found.0, found.1);
}

/// The characters of digits are digits, each of its value.
pub proof fn lemma_digits_text(digits: Seq<u8>)
    requires
        all_decimal(digits),
    ensures
        digits_text(digits).len() == digits.len(),
        forall|i: int|
            0 <= i < digits.len() ==> is_digit(#[trigger] digits_text(digits)[i]) && digit_of(
                digits_text(digits)[i],
            ) == digits[i],
{
    assert forall|i: int| 0 <= i < digits.len() implies is_digit(#[trigger] digits_text(digits)[i])
        && digit_of(digits_text(digits)[i]) == digits[i] by {
        assert(digits[i] <= 9);
        assert(digits_text(digits)[i] == decimal_digit(digits[i] as int));
    }
}

/// Where a text holds the characters of digits, it spells their number.
pub proof fn lemma_run(text: Seq<char>, from: int, to: int, digits: Seq<u8>)
    requires
        0 <= from <= to <= text.len(),
        all_decimal(digits),
        text.subrange(from, to) == digits_text(digits),
    ensures
        forall|k: int| from <= k < to ==> is_digit(#[trigger] text[k]),
        digits_number(text, from, to) == expansion_number(digits),
    decreases digits.len(),
{
    lemma_digits_text(digits);
    assert forall|k: int| from <= k < to implies is_digit(#[trigger] text[k]) by {
        assert(text[k] == text.subrange(from, to)[k - from]);
    }
    if digits.len() > 0 {
        let front = digits.drop_last();
        assert forall|i: int| 0 <= i < front.len() implies #[trigger] front[i] <= 9 by {
            assert(front[i] == digits[i]);
        }
        assert(text.subrange(from, to - 1) =~= digits_text(front)) by {
            lemma_digits_text(front);
            assert forall|i: int| 0 <= i < front.len() implies text.subrange(from, to - 1)[i]
                == digits_text(front)[i] by {
                assert(text.subrange(from, to - 1)[i] == text.subrange(from, to)[i]);
                assert(digits_text(digits)[i] == decimal_digit(digits[i] as int));
                assert(digits_text(front)[i] == decimal_digit(front[i] as int));
            }
        }
        lemma_run(text, from, to - 1, front);
        assert(text[to - 1] == text.subrange(from, to)[to - 1 - from]);
        assert(digit_of(text[to - 1]) == digits.last());
    }
}

/// So many digits that are zero.
pub open spec fn zero_digits(count: nat) -> Seq<u8> {
    Seq::new(count, |i: int| 0u8)
}

/// Zeros spell zero, and zeros before digits change nothing.
pub proof fn lemma_zeros_before(count: nat, digits: Seq<u8>)
    requires
        all_decimal(digits),
    ensures
        all_decimal(zero_digits(count) + digits),
        expansion_number(zero_digits(count) + digits) == expansion_number(digits),
        digits_text(zero_digits(count) + digits) == zeros(count) + digits_text(digits),
    decreases digits.len(),
{
    let all = zero_digits(count) + digits;
    assert(digits_text(all) =~= zeros(count) + digits_text(digits));
    if digits.len() == 0 {
        assert(all =~= zero_digits(count));
        lemma_zeros_spell(count);
    } else {
        let front = digits.drop_last();
        assert forall|i: int| 0 <= i < front.len() implies #[trigger] front[i] <= 9 by {
            assert(front[i] == digits[i]);
        }
        lemma_zeros_before(count, front);
        assert(all.drop_last() =~= zero_digits(count) + front);
        assert(all.last() == digits.last());
    }
}

/// Zeros spell zero.
pub proof fn lemma_zeros_spell(count: nat)
    ensures
        expansion_number(zero_digits(count)) == 0,
        all_decimal(zero_digits(count)),
    decreases count,
{
    if count > 0 {
        lemma_zeros_spell((count - 1) as nat);
        assert(zero_digits(count).drop_last() =~= zero_digits((count - 1) as nat));
    }
}

/// Zeros after digits are worth a power of ten.
pub proof fn lemma_zeros_after(digits: Seq<u8>, count: nat)
    requires
        all_decimal(digits),
    ensures
        all_decimal(digits + zero_digits(count)),
        expansion_number(digits + zero_digits(count)) == expansion_number(digits) * power_of_ten(
            count,
        ),
        digits_text(digits + zero_digits(count)) == digits_text(digits) + zeros(count),
    decreases count,
{
    let all = digits + zero_digits(count);
    assert(digits_text(all) =~= digits_text(digits) + zeros(count));
    if count == 0 {
        assert(all =~= digits);
        assert(expansion_number(digits) * 1 == expansion_number(digits));
    } else {
        lemma_zeros_after(digits, (count - 1) as nat);
        assert(all.drop_last() =~= digits + zero_digits((count - 1) as nat));
        assert(all.last() == 0);
        assert(expansion_number(digits) * (10 * power_of_ten((count - 1) as nat)) == 10 * (
        expansion_number(digits) * power_of_ten((count - 1) as nat))) by (nonlinear_arith);
    }
}

/// Digits spell what their first part spells, times the power of ten of the
/// rest, and what the rest spells.
pub proof fn lemma_split(digits: Seq<u8>, at: int)
    requires
        0 <= at <= digits.len(),
        all_decimal(digits),
    ensures
        all_decimal(digits.take(at)),
        all_decimal(digits.skip(at)),
        expansion_number(digits) == expansion_number(digits.take(at)) * power_of_ten(
            (digits.len() - at) as nat,
        ) + expansion_number(digits.skip(at)),
        digits_text(digits.take(at)) == digits_text(digits).take(at),
        digits_text(digits.skip(at)) == digits_text(digits).skip(at),
    decreases digits.len() - at,
{
    assert(digits_text(digits.take(at)) =~= digits_text(digits).take(at));
    assert(digits_text(digits.skip(at)) =~= digits_text(digits).skip(at));
    assert forall|i: int| 0 <= i < digits.take(at).len() implies #[trigger] digits.take(at)[i]
        <= 9 by {
        assert(digits.take(at)[i] == digits[i]);
    }
    assert forall|i: int| 0 <= i < digits.skip(at).len() implies #[trigger] digits.skip(at)[i]
        <= 9 by {
        assert(digits.skip(at)[i] == digits[at + i]);
    }
    if at == digits.len() {
        assert(digits.take(at) =~= digits);
        assert(digits.skip(at).len() == 0);
        assert(expansion_number(digits) * 1 == expansion_number(digits));
    } else {
        let front = digits.drop_last();
        assert forall|i: int| 0 <= i < front.len() implies #[trigger] front[i] <= 9 by {
            assert(front[i] == digits[i]);
        }
        lemma_split(front, at);
        assert(front.take(at) =~= digits.take(at));
        assert(digits.skip(at).drop_last() =~= front.skip(at));
        assert(digits.skip(at).last() == digits.last());
        let head = expansion_number(digits.take(at));
        let less = power_of_ten((digits.len() - 1 - at) as nat);
        assert(power_of_ten((digits.len() - at) as nat) == 10 * less);
        assert(10 * (head * less + expansion_number(front.skip(at))) == head * (10 * less) + 10
            * expansion_number(front.skip(at))) by (nonlinear_arith);
    }
}

/// The sign that a negative number is written with.
pub open spec fn sign_text(negative: bool) -> Seq<char> {
    if negative {
        seq!['-']
    } else {
        Seq::<char>::empty()
    }
}

/// A sign and digits are read as the whole number that the digits spell.
pub proof fn lemma_reads_digits(negative: bool, run: Seq<u8>)
    requires
        run.len() >= 1,
        all_decimal(run),
    ensures
        ({
            let text = sign_text(negative) + digits_text(run);
            &&& is_decimal(text)
            &&& decimal_digits(text) == expansion_number(run)
            &&& decimal_exponent(text) == 0
            &&& (text.len() > 0 && text[0] == '-') == negative
        }),
{
    let text = sign_text(negative) + digits_text(run);
    let start = sign_text(negative).len() as int;
    let end = text.len() as int;
    lemma_digits_text(run);
    assert(text[start] == digits_text(run)[0]);
    assert(sign_end(text) == start);
    assert(text.subrange(start, end) =~= digits_text(run));
    lemma_run(text, start, end, run);
    lemma_digits_end(text, start, end);
    lemma_digits_end(text, end, end);
    assert(whole_end(text) == end);
    assert(fraction_start(text) == end);
    assert(fraction_end(text) == end);
    assert(!has_exponent(text));
    assert(power_of_ten(0) == 1);
    assert(digits_number(text, end, end) == 0);
    assert(expansion_number(run) * 1 == expansion_number(run));
}

/// A sign, digits, a point and more digits are read as the whole number that
/// all the digits spell, with as many places as there are digits after the
/// point.
pub proof fn lemma_reads_point(negative: bool, whole: Seq<u8>, fraction: Seq<u8>)
    requires
        whole.len() >= 1,
        all_decimal(whole),
        all_decimal(fraction),
    ensures
        ({
            let text = sign_text(negative) + digits_text(whole) + seq!['.'] + digits_text(fraction);
            &&& is_decimal(text)
            &&& decimal_digits(text) == expansion_number(whole) * power_of_ten(fraction.len())
                + expansion_number(fraction)
            &&& decimal_exponent(text) == -(fraction.len() as int)
            &&& (text.len() > 0 && text[0] == '-') == negative
        }),
{
    let text = sign_text(negative) + digits_text(whole) + seq!['.'] + digits_text(fraction);
    let start = sign_text(negative).len() as int;
    let point = start + whole.len();
    let end = text.len() as int;
    lemma_digits_text(whole);
    lemma_digits_text(fraction);
    assert(end == point + 1 + fraction.len());
    assert(text[start] == digits_text(whole)[0]);
    assert(sign_end(text) == start);
    assert(text.subrange(start, point) =~= digits_text(whole));
    assert(text.subrange(point + 1, end) =~= digits_text(fraction));
    assert(text[point] == '.');
    lemma_run(text, start, point, whole);
    lemma_run(text, point + 1, end, fraction);
    lemma_digits_end(text, start, point);
    lemma_digits_end(text, point + 1, end);
    assert(whole_end(text) == point);
    assert(fraction_start(text) == point + 1);
    assert(fraction_end(text) == end);
    assert(!has_exponent(text));
}

/// What a text is read as, once it is known to be a decimal number: its sign,
/// and the binary32 number nearest to its digits times its power of ten.
pub open spec fn reads_as(text: Seq<char>, negative: bool, digits: int, exponent: int) -> bool {
    &&& is_decimal(text)
    &&& decimal_pattern(decimal_digits(text), decimal_exponent(text)) == decimal_pattern(
        digits,
        exponent,
    )
    &&& (text.len() > 0 && text[0] == '-') == negative
}

/// Digits and the zeros after them are read as the digits times the power of
/// ten of the zeros.
proof fn lemma_reads_with_zeros(negative: bool, digits: Seq<u8>, exponent: int)
    requires
        digits.len() >= 1,
        all_decimal(digits),
        exponent >= 0,
    ensures
        reads_as(
            sign_text(negative) + digits_text(digits) + zeros(exponent as nat),
            negative,
            expansion_number(digits),
            exponent,
        ),
{
    let text = sign_text(negative) + digits_text(digits) + zeros(exponent as nat);
    let number = expansion_number(digits);
    let run = digits + zero_digits(exponent as nat);
    lemma_zeros_after(digits, exponent as nat);
    lemma_reads_digits(negative, run);
    assert(text =~= sign_text(negative) + digits_text(run));
    let ten = power_of_ten(exponent as nat);
    assert(power_of_ten(0) == 1);
    assert((number * ten) * power_of_ten(0) * pow2(149) == number * ten * pow2(149))
        by (nonlinear_arith)
        requires
            power_of_ten(0) == 1,
    ;
}

/// Digits with a point among them are read as the digits, with as many
/// places as stand after the point.
proof fn lemma_reads_with_point(negative: bool, digits: Seq<u8>, exponent: int)
    requires
        all_decimal(digits),
        exponent < 0,
        digits.len() > -exponent,
    ensures
        reads_as(
            sign_text(negative) + digits_text(digits).take(digits.len() + exponent) + seq!['.']
                + digits_text(digits).skip(digits.len() + exponent),
            negative,
            expansion_number(digits),
            exponent,
        ),
{
    let at = digits.len() + exponent;
    lemma_split(digits, at);
    lemma_reads_point(negative, digits.take(at), digits.skip(at));
    assert(digits.skip(at).len() == -exponent);
}

/// `0.`, zeros and digits are read as the digits, with as many places as
/// there are zeros and digits.
proof fn lemma_reads_after_point(negative: bool, digits: Seq<u8>, exponent: int)
    requires
        digits.len() >= 1,
        all_decimal(digits),
        exponent < 0,
        digits.len() <= -exponent,
    ensures
        reads_as(
            sign_text(negative) + seq!['0', '.'] + zeros((-exponent - digits.len()) as nat)
                + digits_text(digits),
            negative,
            expansion_number(digits),
            exponent,
        ),
{
    let text = sign_text(negative) + seq!['0', '.'] + zeros((-exponent - digits.len()) as nat)
        + digits_text(digits);
    let gap = (-exponent - digits.len()) as nat;
    let fraction = zero_digits(gap) + digits;
    lemma_zeros_before(gap, digits);
    lemma_reads_point(negative, seq![0u8], fraction);
    assert(digits_text(seq![0u8]) =~= seq!['0']);
    assert(text =~= sign_text(negative) + digits_text(seq![0u8]) + seq!['.'] + digits_text(
        fraction,
    ));
    assert(fraction.len() == -exponent);
    assert(expansion_number(seq![0u8]) == 0) by {
        assert(seq![0u8].drop_last().len() == 0);
        assert(expansion_number(seq![0u8].drop_last()) == 0);
    }
    assert(0 * power_of_ten(fraction.len()) == 0);
}

/// A number written out without an exponent is read as its digits times the
/// power of ten that they were written for.
pub proof fn lemma_reads_positional(negative: bool, digits: Seq<u8>, exponent: int)
    requires
        digits.len() >= 1,
        all_decimal(digits),
    ensures
        reads_as(
            sign_text(negative) + positional(digits, exponent),
            negative,
            expansion_number(digits),
            exponent,
        ),
{
    let text = sign_text(negative) + positional(digits, exponent);
    lemma_digits_text(digits);
    if exponent >= 0 {
        lemma_reads_with_zeros(negative, digits, exponent);
        assert(text =~= sign_text(negative) + digits_text(digits) + zeros(exponent as nat));
    } else if digits.len() > -exponent {
        lemma_reads_with_point(negative, digits, exponent);
        assert(text =~= sign_text(negative) + digits_text(digits).take(digits.len() + exponent)
            + seq!['.'] + digits_text(digits).skip(digits.len() + exponent));
    } else {
        lemma_reads_after_point(negative, digits, exponent);
        assert(text =~= sign_text(negative) + seq!['0', '.'] + zeros(
            (-exponent - digits.len()) as nat,
        ) + digits_text(digits));
    }
}

/// What is written of a binary32 number is read back as the same number:
/// `parse_number` undoes `write_number`, for every bit pattern but those of
/// no number.
pub proof fn lemma_written_is_read(bits: u32)
    requires
        !is_nan(bits),
    ensures
        number_of(number_text(bits)) == Some(bits),
{
    let negative = is_negative(bits);
    let size = magnitude(bits);
    let text = number_text(bits);
    assert(with_sign(negative, size) == bits);
    if size == 0x7F80_0000 {
        let word = seq!['i', 'n', 'f'];
        assert(text =~= sign_text(negative) + word);
        let start = sign_text(negative).len() as int;
        assert(text[start] == 'i');
        assert(sign_end(text) == start);
        assert(!is_digit(text[start]));
        assert(whole_end(text) == start);
        assert(fraction_start(text) == start);
        assert(fraction_end(text) == start);
        assert(!is_decimal(text));
        assert(spells(text, start, word)) by {
            assert forall|i: int| 0 <= i < word.len() implies lower_case(#[trigger] text[start + i])
                == word[i] by {
                assert(text[start + i] == word[i]);
            }
        }
        assert((text.len() > 0 && text[0] == '-') == negative);
    } else if size == 0 {
        assert(text =~= sign_text(negative) + digits_text(seq![0u8]));
        lemma_reads_digits(negative, seq![0u8]);
        assert(expansion_number(seq![0u8]) == 0) by {
            assert(seq![0u8].drop_last().len() == 0);
            assert(expansion_number(seq![0u8].drop_last()) == 0);
        }
        lemma_decimal_zero(0);
    } else {
        let found = shortest_decimal(size);
        let digits = decimal_expansion(found.0);
        lemma_shortest_is_read(size);
        lemma_expansion_spells(found.0);
        lemma_reads_positional(negative, digits, found.1);
        assert(text =~= sign_text(negative) + positional(digits, found.1));
    }
}

} // verus!
