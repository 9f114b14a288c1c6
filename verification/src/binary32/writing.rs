//! Decimal notation of binary32 numbers: writing a number as the shortest
//! decimal text that is read back as the same number.
use crate::binary32::{is_nan, is_negative, is_not_a_number, magnitude, scaled};
use crate::binary32::arithmetic::decompose;
use crate::binary32::decimal::{
    decimal_pattern, lemma_decimal_bounds, lemma_power_of_ten, lemma_power_of_ten_positive,
    nearest_to_decimal, power_of_ten,
};
use crate::binary32::natural::{lemma_not_negative, Natural};
use crate::utils::format::{decimal_digit, hex_digit_text, upper_hex_digit};
use vstd::arithmetic::div_mod::*;
use vstd::arithmetic::mul::*;
use vstd::arithmetic::power2::*;
use vstd::prelude::*;
use vstd::string::*;

verus! {

/// Five to the power `exponent`.
pub open spec fn power_of_five(exponent: nat) -> int
    decreases exponent,
{
    if exponent == 0 {
        1
    } else {
        5 * power_of_five((exponent - 1) as nat)
    }
}

/// The decimal digits of a whole number, the first digit first: one digit for
/// a number below ten, zero too.
pub open spec fn decimal_expansion(number: int) -> Seq<u8>
    decreases number,
{
    if number < 10 {
        seq![number as u8]
    } else {
        decimal_expansion(number / 10).push((number % 10) as u8)
    }
}

/// The whole number that decimal digits spell, the first digit first.
pub open spec fn expansion_number(digits: Seq<u8>) -> int
    decreases digits.len(),
{
    if digits.len() == 0 {
        0
    } else {
        10 * expansion_number(digits.drop_last()) + digits.last()
    }
}

/// Whether each of the digits is a decimal digit.
pub open spec fn all_decimal(digits: Seq<u8>) -> bool {
    forall|i: int| 0 <= i < digits.len() ==> #[trigger] digits[i] <= 9
}

/// A binary32 number in units of 10^-149: every finite binary32 number is a
/// whole number of them.
pub open spec fn exact_decimal(pattern: int) -> int {
    scaled(pattern) * power_of_five(149)
}

/// Powers of five are positive, and five times two is ten.
pub proof fn lemma_power_of_five(exponent: nat)
    ensures
        1 <= power_of_five(exponent),
        power_of_five(exponent) * pow2(exponent) == power_of_ten(exponent),
    decreases exponent,
{
    lemma2_to64();
    if exponent > 0 {
        lemma_power_of_five((exponent - 1) as nat);
        lemma_pow2_unfold(exponent);
        assert((5 * power_of_five((exponent - 1) as nat)) * (2 * pow2((exponent - 1) as nat)) == 10
            * (power_of_five((exponent - 1) as nat) * pow2((exponent - 1) as nat)))
            by (nonlinear_arith);
    }
}

/// Digits that spell a number are that number's digits: there is one way to
/// write a number, once the first digit is not zero.
pub proof fn lemma_expansion_unique(digits: Seq<u8>)
    requires
        digits.len() >= 1,
        all_decimal(digits),
        digits.len() > 1 ==> digits[0] != 0,
    ensures
        decimal_expansion(expansion_number(digits)) == digits,
        digits.len() > 1 ==> expansion_number(digits) >= 10,
        0 <= expansion_number(digits),
    decreases digits.len(),
{
    let front = digits.drop_last();
    if digits.len() == 1 {
        assert(front.len() == 0);
        assert(expansion_number(front) == 0);
        assert(digits == seq![digits[0]]);
    } else {
        assert(front[0] == digits[0]);
        lemma_expansion_unique(front);
        if front.len() == 1 {
            assert(expansion_number(front.drop_last()) == 0);
            assert(expansion_number(front) == front[0]);
        }
        let number = expansion_number(digits);
        assert(number == 10 * expansion_number(front) + digits.last());
        assert(expansion_number(front) >= 1);
        lemma_fundamental_div_mod_converse(
            number,
            10,
            expansion_number(front),
            digits.last() as int,
        );
        assert(front.push(digits.last()) == digits);
    }
}

/// The digits of a number spell the number.
pub proof fn lemma_expansion_spells(number: int)
    requires
        0 <= number,
    ensures
        expansion_number(decimal_expansion(number)) == number,
        all_decimal(decimal_expansion(number)),
        decimal_expansion(number).len() >= 1,
        number >= 1 ==> decimal_expansion(number)[0] != 0,
    decreases number,
{
    let digits = decimal_expansion(number);
    if number < 10 {
        assert(digits.drop_last().len() == 0);
        assert(expansion_number(digits.drop_last()) == 0);
    } else {
        lemma_expansion_spells(number / 10);
        let front = decimal_expansion(number / 10);
        assert(digits.drop_last() == front);
        assert(digits[0] == front[0]);
        lemma_fundamental_div_mod(number, 10);
    }
}

/// Multiplies a number by a power of five.
fn times_power_of_five(value: &Natural, exponent: u32) -> (r: Natural)
    ensures
        r@ == value@ * power_of_five(exponent as nat),
{
    let mut r = value.times_plus(1, 0);
    let mut done: u32 = 0;
    proof {
        assert(value@ * 1 == value@);
        assert(value@ * power_of_five(0) == value@);
    }
    while done < exponent
        invariant
            done <= exponent,
            r@ == value@ * power_of_five(done as nat),
        decreases exponent - done,
    {
        proof {
            assert(value@ * power_of_five((done + 1) as nat) == (value@ * power_of_five(
                done as nat,
            )) * 5) by (nonlinear_arith)
                requires
                    power_of_five((done + 1) as nat) == 5 * power_of_five(done as nat),
            ;
        }
        r = r.times_plus(5, 0);
        done += 1;
    }
    r
}

/// The power of ten with the given exponent.
fn ten_to(exponent: usize) -> (r: Natural)
    ensures
        r@ == power_of_ten(exponent as nat),
{
    let mut r = Natural::from_small(1);
    let mut done: usize = 0;
    while done < exponent
        invariant
            done <= exponent,
            r@ == power_of_ten(done as nat),
        decreases exponent - done,
    {
        r = r.times_plus(10, 0);
        done += 1;
    }
    r
}

/// The decimal digits of a natural number that is not zero, the first digit
/// first.
fn expand(number: &Natural) -> (digits: Vec<u8>)
    requires
        1 <= number@ < power_of_ten(200),
    ensures
        digits@ == decimal_expansion(number@),
        all_decimal(digits@),
        digits@.len() >= 1,
        digits@[0] != 0,
        expansion_number(digits@) == number@,
{
    // how many digits there are: the least length with number < 10^length
    let mut length: usize = 1;
    let mut above = Natural::from_small(10);
    proof {
        assert(power_of_ten(1) == 10 * power_of_ten(0));
    }
    while number.is_at_least(&above)
        invariant
            1 <= length <= 200,
            above@ == power_of_ten(length as nat),
            number@ >= power_of_ten((length - 1) as nat),
            number@ < power_of_ten(200),
        decreases 200 - length,
    {
        proof {
            if length >= 200 {
                assert(false);
            }
        }
        above = above.times_plus(10, 0);
        length += 1;
    }
    // digit by digit, from the first: number == spelled * 10^left + rest
    let mut digits: Vec<u8> = Vec::new();
    let mut rest = number.times_plus(1, 0);
    let mut left: usize = length;
    proof {
        assert(number@ * 1 == number@);
        assert(expansion_number(digits@) == 0);
        assert(0 * power_of_ten(left as nat) == 0);
        lemma_not_negative(rest.limbs@);
    }
    while left > 0
        invariant
            left <= length,
            digits@.len() == length - left,
            all_decimal(digits@),
            number@ == expansion_number(digits@) * power_of_ten(left as nat) + rest@,
            0 <= rest@ < power_of_ten(left as nat),
            number@ >= power_of_ten((length - 1) as nat),
            length >= 1,
            digits@.len() >= 1 ==> digits@[0] != 0,
        decreases left,
    {
        let unit = ten_to(left - 1);
        let mut digit: u8 = 0;
        proof {
            assert(power_of_ten(left as nat) == 10 * unit@);
            assert(0 * unit@ == 0);
        }
        while rest.is_at_least(&unit)
            invariant
                digit <= 9,
                0 <= rest@,
                unit@ == power_of_ten((left - 1) as nat),
                power_of_ten(left as nat) == 10 * unit@,
                rest@ + digit * unit@ < 10 * unit@,
                number@ == expansion_number(digits@) * power_of_ten(left as nat) + rest@ + digit
                    * unit@,
            decreases rest@,
        {
            proof {
                lemma_power_of_ten_positive((left - 1) as nat);
                assert((digit + 1) * unit@ == digit * unit@ + unit@) by (nonlinear_arith);
                if digit == 9 {
                    assert(9 * unit@ + unit@ == 10 * unit@);
                    assert(false);
                }
            }
            rest = rest.minus(&unit);
            digit = digit + 1;
            proof {
                lemma_not_negative(rest.limbs@);
            }
        }
        proof {
            let spelled = expansion_number(digits@);
            let longer = digits@.push(digit);
            assert(longer.drop_last() == digits@);
            assert(expansion_number(longer) == 10 * spelled + digit);
            assert((10 * spelled + digit) * unit@ == spelled * (10 * unit@) + digit * unit@)
                by (nonlinear_arith);
            if digits@.len() == 0 {
                // the first digit is not zero
                assert(spelled == 0);
                assert(0 * power_of_ten(left as nat) == 0);
                if digit == 0 {
                    assert(0 * unit@ == 0);
                    assert(false);
                }
            }
            assert forall|i: int| 0 <= i < longer.len() implies #[trigger] longer[i] <= 9 by {
                if i < digits@.len() {
                    assert(longer[i] == digits@[i]);
                }
            }
            assert(longer[0] != 0) by {
                if digits@.len() > 0 {
                    assert(longer[0] == digits@[0]);
                }
            }
        }
        digits.push(digit);
        left -= 1;
    }
    proof {
        assert(expansion_number(digits@) * power_of_ten(0) == expansion_number(digits@));
        lemma_expansion_unique(digits@);
    }
    digits
}

/// The decimal of fewest digits that is read as the binary32 number of the
/// pattern, sought from `count` digits on.
///
/// `expansion` holds the digits of the number itself, which is a whole number
/// of units of 10^-149. With `count` digits there are two decimals next to the
/// number: its first `count` digits, and one more than those in the last place.
/// Where one of the two is read as the number, it is the decimal sought; where
/// both are, the nearer one is, and the upper one of two equally near. Where
/// neither is, a digit more is taken. All its digits are read as the number.
pub open spec fn shortest_from(pattern: int, expansion: Seq<u8>, count: nat) -> (int, int)
    decreases expansion.len() - count,
{
    let below = expansion_number(expansion.take(count as int));
    let exponent = expansion.len() - count - 149;
    if count >= expansion.len() {
        (expansion_number(expansion), -149)
    } else if decimal_pattern(below, exponent) == pattern && (decimal_pattern(below + 1, exponent)
        != pattern || expansion[count as int] < 5) {
        (below, exponent)
    } else if decimal_pattern(below + 1, exponent) == pattern {
        (below + 1, exponent)
    } else {
        shortest_from(pattern, expansion, count + 1)
    }
}

/// The decimal number `digits * 10^exponent` without the zeros at the end of
/// its digits.
pub open spec fn without_zeros(digits: int, exponent: int) -> (int, int)
    decreases digits,
{
    if digits >= 10 && digits % 10 == 0 {
        without_zeros(digits / 10, exponent + 1)
    } else {
        (digits, exponent)
    }
}

/// The shortest decimal number that is read as the binary32 number of the
/// pattern: its digits, as a whole number that does not end in zero, and the
/// power of ten that they are multiplied by.
pub open spec fn shortest_decimal(pattern: int) -> (int, int) {
    let found = shortest_from(pattern, decimal_expansion(exact_decimal(pattern)), 1);
    without_zeros(found.0, found.1)
}

/// Digits spell a number of no more decimal digits than they are.
pub proof fn lemma_expansion_bound(digits: Seq<u8>)
    requires
        all_decimal(digits),
    ensures
        0 <= expansion_number(digits) < power_of_ten(digits.len()),
    decreases digits.len(),
{
    if digits.len() > 0 {
        let front = digits.drop_last();
        assert forall|i: int| 0 <= i < front.len() implies #[trigger] front[i] <= 9 by {
            assert(front[i] == digits[i]);
        }
        lemma_expansion_bound(front);
        assert(digits.last() == digits[digits.len() - 1]);
    }
}

/// A finite binary32 number that is not zero is a whole number of units of
/// 10^-149, of fewer than two hundred digits.
pub proof fn lemma_exact_decimal(pattern: int)
    requires
        0 < pattern < 0x7F80_0000,
    ensures
        1 <= exact_decimal(pattern) < power_of_ten(200),
{
    let value = scaled(pattern);
    crate::binary32::lemma_scaled_order(pattern, 0);
    crate::binary32::lemma_scaled_order(pattern, 0x7F80_0000);
    lemma2_to64();
    lemma_pow2_adds(23, 254);
    assert(scaled(0x7F80_0000) == pow2(277)) by {
        assert(0x7F80_0000int / 0x80_0000 == 255);
        assert(0x7F80_0000int % 0x80_0000 == 0);
    }
    lemma_power_of_five(149);
    lemma_pow2_adds(128, 149);
    lemma_decimal_bounds();
    lemma_power_of_ten(39, 188);
    lemma_power_of_ten(149, 188);
    lemma_power_of_ten(188, 200);
    lemma_pow2_pos(149);
    let five = power_of_five(149);
    assert(value * five >= 1) by (nonlinear_arith)
        requires
            value >= 1,
            five >= 1,
    ;
    // value * 5^149 < 2^277 * 5^149 == 2^128 * 10^149 < 10^39 * 10^149
    assert(value * five < power_of_ten(39) * power_of_ten(149)) by (nonlinear_arith)
        requires
            0 < value < pow2(277),
            pow2(277) == pow2(128) * pow2(149),
            five * pow2(149) == power_of_ten(149),
            pow2(128) < power_of_ten(39),
            five >= 1,
            0 < pow2(149),
    ;
}

/// Takes the zeros from the end of the digits of a decimal number.
fn strip_zeros(digits: Vec<u8>, exponent: i32) -> (r: (Vec<u8>, i32))
    requires
        digits@.len() >= 1,
        digits@.len() <= 200,
        all_decimal(digits@),
        digits@[0] != 0,
        -1000 <= exponent <= 1000,
    ensures
        r.0@ == decimal_expansion(
            without_zeros(expansion_number(digits@), exponent as int).0,
        ),
        r.1 == without_zeros(expansion_number(digits@), exponent as int).1,
        r.0@.len() >= 1,
        r.0@.len() <= 200,
        all_decimal(r.0@),
        -1000 <= r.1 <= 1200,
{
    let mut digits = digits;
    let mut exponent = exponent;
    let ghost first = expansion_number(digits@);
    let ghost start = exponent as int;
    proof {
        lemma_expansion_unique(digits@);
    }
    while digits.len() > 1 && digits[digits.len() - 1] == 0
        invariant
            1 <= digits@.len() <= 200,
            all_decimal(digits@),
            digits@[0] != 0,
            start <= exponent <= start + 200 - digits@.len(),
            -1000 <= start <= 1000,
            without_zeros(expansion_number(digits@), exponent as int) == without_zeros(first, start),
        decreases digits@.len(),
    {
        proof {
            let number = expansion_number(digits@);
            let front = digits@.drop_last();
            lemma_expansion_unique(digits@);
            assert(number == 10 * expansion_number(front) + 0);
            assert(front[0] == digits@[0]);
            assert forall|i: int| 0 <= i < front.len() implies #[trigger] front[i] <= 9 by {
                assert(front[i] == digits@[i]);
            }
        }
        digits.pop();
        exponent += 1;
    }
    proof {
        let number = expansion_number(digits@);
        lemma_expansion_unique(digits@);
        if digits@.len() > 1 {
            let front = digits@.drop_last();
            assert(number == 10 * expansion_number(front) + digits@.last());
            assert(number % 10 == digits@.last()) by {
                lemma_fundamental_div_mod_converse(
                    number,
                    10,
                    expansion_number(front),
                    digits@.last() as int,
                );
            }
        } else {
            assert(digits@.drop_last().len() == 0);
            assert(expansion_number(digits@.drop_last()) == 0);
        }
    }
    (digits, exponent)
}

/// Finds the shortest decimal number that is read as the finite binary32
/// number of the pattern, which is not zero: its digits, the first digit
/// first, and the power of ten that they are multiplied by.
pub fn shortest_digits(pattern: u32) -> (r: (Vec<u8>, i32))
    requires
        0 < pattern < 0x7F80_0000,
    ensures
        r.0@ == decimal_expansion(shortest_decimal(pattern as int).0),
        r.1 == shortest_decimal(pattern as int).1,
        1 <= r.0@.len() <= 200,
        all_decimal(r.0@),
        -1000 <= r.1 <= 1200,
{
    let (significand, scale) = decompose(pattern);
    let whole = times_power_of_five(
        &crate::binary32::wide::doubled(&Natural::from_small(significand), scale as u128),
        149,
    );
    proof {
        lemma_exact_decimal(pattern as int);
        assert((significand * pow2(scale as nat)) * power_of_five(149) == exact_decimal(
            pattern as int,
        ));
    }
    let expansion = expand(&whole);
    let length = expansion.len();
    proof {
        lemma_expansion_bound(expansion@);
        if length > 200 {
            lemma_power_of_ten(200, (length - 1) as nat);
            lemma_expansion_long(expansion@);
            assert(false);
        }
    }
    let mut below = Natural::from_small(0);
    let mut count: usize = 0;
    proof {
        assert(expansion@.take(0).len() == 0);
    }
    while count + 1 < length
        invariant
            count < length <= 200,
            length == expansion@.len(),
            all_decimal(expansion@),
            expansion@[0] != 0,
            below@ == expansion_number(expansion@.take(count as int)),
            shortest_from(pattern as int, expansion@, (count + 1) as nat) == shortest_from(
                pattern as int,
                expansion@,
                1,
            ),
            expansion_number(expansion@) == exact_decimal(pattern as int),
            expansion@ == decimal_expansion(exact_decimal(pattern as int)),
            0 < pattern < 0x7F80_0000,
        decreases length - count,
    {
        let digit = expansion[count];
        below = below.times_plus(10, digit as u32);
        count += 1;
        let ghost prefix = expansion@.take(count as int);
        proof {
            assert(prefix.drop_last() == expansion@.take(count - 1));
            assert(prefix.last() == digit);
            assert forall|i: int| 0 <= i < prefix.len() implies #[trigger] prefix[i] <= 9 by {
                assert(prefix[i] == expansion@[i]);
            }
            assert(prefix[0] == expansion@[0]);
            lemma_expansion_bound(prefix);
            lemma_expansion_unique(prefix);
            lemma_power_of_ten(count as nat, (count + 1) as nat);
            lemma_power_of_ten(count as nat, 200);
            lemma_power_of_ten((count + 1) as nat, 200);
        }
        let exponent: i32 = length as i32 - count as i32 - 149;
        let above = below.times_plus(1, 1);
        proof {
            assert(below@ * 1 == below@);
        }
        let down = nearest_to_decimal(&below, count, exponent) == pattern;
        let up = nearest_to_decimal(&above, count + 1, exponent) == pattern;
        let ghost found = shortest_from(pattern as int, expansion@, count as nat);
        proof {
            assert(found == shortest_from(pattern as int, expansion@, 1));
        }
        if down && (!up || expansion[count] < 5) {
            let digits = expand(&below);
            proof {
                assert(found == (below@, exponent as int));
                lemma_short_expansion(below@, count as nat);
            }
            return strip_zeros(digits, exponent);
        } else if up {
            let digits = expand(&above);
            proof {
                assert(found == (above@, exponent as int));
                lemma_short_expansion(above@, (count + 1) as nat);
            }
            return strip_zeros(digits, exponent);
        }
        proof {
            assert(found == shortest_from(pattern as int, expansion@, (count + 1) as nat));
        }
    }
    // all the digits
    proof {
        assert(shortest_from(pattern as int, expansion@, (count + 1) as nat) == (
            expansion_number(expansion@),
            -149int,
        ));
    }
    strip_zeros(expansion, -149)
}

/// A number below a power of ten has no more digits than the exponent.
pub proof fn lemma_short_expansion(number: int, count: nat)
    requires
        1 <= number < power_of_ten(count),
    ensures
        decimal_expansion(number).len() <= count,
{
    let digits = decimal_expansion(number);
    lemma_expansion_spells(number);
    lemma_expansion_long(digits);
    if digits.len() > count {
        lemma_power_of_ten(count, (digits.len() - 1) as nat);
    }
}

/// Digits whose first is not zero spell a number of as many digits as they
/// are.
pub proof fn lemma_expansion_long(digits: Seq<u8>)
    requires
        digits.len() >= 1,
        all_decimal(digits),
        digits[0] != 0,
    ensures
        expansion_number(digits) >= power_of_ten((digits.len() - 1) as nat),
    decreases digits.len(),
{
    let front = digits.drop_last();
    if digits.len() == 1 {
        assert(front.len() == 0);
        assert(expansion_number(front) == 0);
    } else {
        assert(front[0] == digits[0]);
        assert forall|i: int| 0 <= i < front.len() implies #[trigger] front[i] <= 9 by {
            assert(front[i] == digits[i]);
        }
        lemma_expansion_long(front);
    }
}

/// The characters of decimal digits.
pub open spec fn digits_text(digits: Seq<u8>) -> Seq<char> {
    digits.map_values(|digit: u8| decimal_digit(digit as int))
}

/// So many zeros.
pub open spec fn zeros(count: nat) -> Seq<char> {
    Seq::new(count, |i: int| '0')
}

/// The decimal number `digits * 10^exponent` written out, without an
/// exponent: the digits and the zeros that follow them; or the digits with a
/// point among them; or `0.`, zeros, and the digits.
pub open spec fn positional(digits: Seq<u8>, exponent: int) -> Seq<char> {
    let text = digits_text(digits);
    if exponent >= 0 {
        text + zeros(exponent as nat)
    } else if text.len() > -exponent {
        text.take(text.len() + exponent) + seq!['.'] + text.skip(text.len() + exponent)
    } else {
        seq!['0', '.'] + zeros((-exponent - text.len()) as nat) + text
    }
}

/// A binary32 number written in decimal: the shortest decimal number that
/// is read back as the same binary32 number, written without an exponent;
/// `inf` for an infinity; a minus sign before what is negative; and `NaN` for
/// what is no number.
pub open spec fn number_text(bits: u32) -> Seq<char> {
    if is_nan(bits) {
        seq!['N', 'a', 'N']
    } else {
        let sign = if is_negative(bits) {
            seq!['-']
        } else {
            Seq::<char>::empty()
        };
        let size = magnitude(bits);
        if size == 0x7F80_0000 {
            sign + seq!['i', 'n', 'f']
        } else if size == 0 {
            sign + seq!['0']
        } else {
            sign + positional(
                decimal_expansion(shortest_decimal(size).0),
                shortest_decimal(size).1,
            )
        }
    }
}

/// Appends the characters of the digits from `from` up to `to`.
fn push_digits(text: &mut String, digits: &Vec<u8>, from: usize, to: usize)
    requires
        from <= to <= digits.len(),
        all_decimal(digits@),
    ensures
        final(text)@ == old(text)@ + digits_text(digits@).subrange(from as int, to as int),
{
    let mut i: usize = from;
    assert(digits_text(digits@).subrange(from as int, from as int) =~= Seq::<char>::empty());
    assert(text@ + Seq::<char>::empty() =~= text@);
    while i < to
        invariant
            from <= i <= to <= digits.len(),
            all_decimal(digits@),
            text@ == old(text)@ + digits_text(digits@).subrange(from as int, i as int),
        decreases to - i,
    {
        let ghost before = text@;
        text.append(hex_digit_text(digits[i]));
        proof {
            assert(upper_hex_digit(digits@[i as int] as int) == decimal_digit(
                digits@[i as int] as int,
            ));
            assert(digits_text(digits@)[i as int] == decimal_digit(digits@[i as int] as int));
            assert(digits_text(digits@).subrange(from as int, i + 1) =~= digits_text(
                digits@,
            ).subrange(from as int, i as int) + seq![decimal_digit(digits@[i as int] as int)]);
            assert(text@ =~= old(text)@ + digits_text(digits@).subrange(from as int, i + 1));
        }
        i += 1;
    }
}

/// Appends so many zeros.
fn push_zeros(text: &mut String, count: usize)
    ensures
        final(text)@ == old(text)@ + zeros(count as nat),
{
    let mut i: usize = 0;
    proof {
        reveal_strlit("0");
        assert(text@ + zeros(0) =~= text@);
    }
    while i < count
        invariant
            i <= count,
            text@ == old(text)@ + zeros(i as nat),
        decreases count - i,
    {
        text.append("0");
        proof {
            reveal_strlit("0");
            assert("0"@ =~= seq!['0']);
            assert(zeros((i + 1) as nat) =~= zeros(i as nat) + seq!['0']);
            assert(text@ =~= old(text)@ + zeros((i + 1) as nat));
        }
        i += 1;
    }
}

/// Appends the decimal number `digits * 10^exponent`, written out without an
/// exponent.
fn push_positional(text: &mut String, digits: &Vec<u8>, exponent: i32)
    requires
        1 <= digits.len() <= 200,
        all_decimal(digits@),
        -1000 <= exponent <= 1200,
    ensures
        final(text)@ == old(text)@ + positional(digits@, exponent as int),
{
    let length = digits.len();
    let ghost all = digits_text(digits@);
    proof {
        reveal_strlit(".");
        reveal_strlit("0.");
        assert("."@ =~= seq!['.']);
        assert("0."@ =~= seq!['0', '.']);
        assert(all.subrange(0, length as int) =~= all);
    }
    if exponent >= 0 {
        push_digits(text, digits, 0, length);
        push_zeros(text, exponent as usize);
        assert(text@ =~= old(text)@ + positional(digits@, exponent as int));
    } else if length as i32 > -exponent {
        let whole: usize = (length as i32 + exponent) as usize;
        push_digits(text, digits, 0, whole);
        text.append(".");
        push_digits(text, digits, whole, length);
        proof {
            assert(all.take(whole as int) =~= all.subrange(0, whole as int));
            assert(all.skip(whole as int) =~= all.subrange(whole as int, length as int));
            assert(text@ =~= old(text)@ + positional(digits@, exponent as int));
        }
    } else {
        text.append("0.");
        push_zeros(text, (-exponent - length as i32) as usize);
        push_digits(text, digits, 0, length);
        assert(text@ =~= old(text)@ + positional(digits@, exponent as int));
    }
}

/// Writes a binary32 number in decimal, as the shortest text that is read
/// back as the same number.
pub fn write_number(bits: u32) -> (text: String)
    ensures
        text@ == number_text(bits),
{
    proof {
        reveal_strlit("NaN");
        reveal_strlit("-");
        reveal_strlit("");
        reveal_strlit("inf");
        reveal_strlit("0");
        assert("NaN"@ =~= seq!['N', 'a', 'N']);
        assert("-"@ =~= seq!['-']);
        assert(""@ =~= Seq::<char>::empty());
        assert("inf"@ =~= seq!['i', 'n', 'f']);
        assert("0"@ =~= seq!['0']);
    }
    if is_not_a_number(bits) {
        return String::from_str("NaN");
    }
    let negative = bits >= 0x8000_0000;
    let size: u32 = if negative {
        bits - 0x8000_0000
    } else {
        bits
    };
    let mut text = if negative {
        String::from_str("-")
    } else {
        String::from_str("")
    };
    if size == 0x7F80_0000 {
        text.append("inf");
    } else if size == 0 {
        text.append("0");
    } else {
        let (digits, exponent) = shortest_digits(size);
        push_positional(&mut text, &digits, exponent);
    }
    text
}

} // verus!
