//! Decimal notation of binary32 numbers: reading a decimal text as the
//! nearest binary32 number.
use crate::binary32::arithmetic::{NAN, signed, with_sign};
use crate::binary32::natural::Natural;
use crate::binary32::rounding::{lemma_nearest_beyond, lemma_nearest_of_little, nearest_pattern};
use crate::binary32::wide::round_quotient;
use crate::utils::text::characters;
use vstd::arithmetic::div_mod::*;
use vstd::arithmetic::mul::*;
use vstd::arithmetic::power2::*;
use vstd::prelude::*;

verus! {

/// Ten to the power `exponent`.
pub open spec fn power_of_ten(exponent: nat) -> int
    decreases exponent,
{
    if exponent == 0 {
        1
    } else {
        10 * power_of_ten((exponent - 1) as nat)
    }
}

/// Whether the character is a decimal digit.
pub open spec fn is_digit(c: char) -> bool {
    '0' <= c <= '9'
}

/// The value of a decimal digit.
pub open spec fn digit_of(c: char) -> int {
    c as int - 0x30
}

/// Where the run of digits that begins at `from` ends.
pub open spec fn digits_end(text: Seq<char>, from: int) -> int
    decreases text.len() - from,
{
    if 0 <= from < text.len() && is_digit(text[from]) {
        digits_end(text, from + 1)
    } else {
        from
    }
}

/// The number that the digits from `from` up to `to` spell.
pub open spec fn digits_number(text: Seq<char>, from: int, to: int) -> int
    decreases to - from,
{
    if to <= from {
        0
    } else {
        10 * digits_number(text, from, to - 1) + digit_of(text[to - 1])
    }
}

/// The letter in lower case, where the character is a letter of ASCII.
pub open spec fn lower_case(c: char) -> char {
    if 'A' <= c <= 'Z' {
        ((c as u8 + 0x20) as u8) as char
    } else {
        c
    }
}

/// Whether the text from `from` on spells the word, in either case.
pub open spec fn spells(text: Seq<char>, from: int, word: Seq<char>) -> bool {
    &&& text.len() - from == word.len()
    &&& forall|i: int| 0 <= i < word.len() ==> lower_case(#[trigger] text[from + i]) == word[i]
}

/// Where the digits before the point begin: after the sign, if there is one.
pub open spec fn sign_end(text: Seq<char>) -> int {
    if text.len() > 0 && (text[0] == '+' || text[0] == '-') {
        1
    } else {
        0
    }
}

/// Where the digits before the point end.
pub open spec fn whole_end(text: Seq<char>) -> int {
    digits_end(text, sign_end(text))
}

/// Where the digits after the point begin: after the point, if there is one.
pub open spec fn fraction_start(text: Seq<char>) -> int {
    if whole_end(text) < text.len() && text[whole_end(text)] == '.' {
        whole_end(text) + 1
    } else {
        whole_end(text)
    }
}

/// Where the digits after the point end.
pub open spec fn fraction_end(text: Seq<char>) -> int {
    digits_end(text, fraction_start(text))
}

/// Whether an exponent follows the digits: an `e` of either case.
pub open spec fn has_exponent(text: Seq<char>) -> bool {
    fraction_end(text) < text.len() && (text[fraction_end(text)] == 'e' || text[fraction_end(
        text,
    )] == 'E')
}

/// Where the digits of the exponent begin: after the `e` and its sign.
pub open spec fn exponent_start(text: Seq<char>) -> int {
    let after = fraction_end(text) + 1;
    if after < text.len() && (text[after] == '+' || text[after] == '-') {
        after + 1
    } else {
        after
    }
}

/// Where the digits of the exponent end.
pub open spec fn exponent_end(text: Seq<char>) -> int {
    digits_end(text, exponent_start(text))
}

/// Whether the text is a decimal number: an optional sign; digits with an
/// optional point among them, before them or after them, at least one digit in
/// all; and an optional exponent, which is `e`, an optional sign and at least
/// one digit. Nothing else may stand in the text.
pub open spec fn is_decimal(text: Seq<char>) -> bool {
    &&& (whole_end(text) - sign_end(text)) + (fraction_end(text) - fraction_start(text)) >= 1
    &&& if has_exponent(text) {
        exponent_start(text) < exponent_end(text) && exponent_end(text) == text.len()
    } else {
        fraction_end(text) == text.len()
    }
}

/// The digits of a decimal number, the point left out, as one whole number.
pub open spec fn decimal_digits(text: Seq<char>) -> int {
    digits_number(text, sign_end(text), whole_end(text)) * power_of_ten(
        (fraction_end(text) - fraction_start(text)) as nat,
    ) + digits_number(text, fraction_start(text), fraction_end(text))
}

/// The power of ten by which the digits of a decimal number are multiplied: its
/// exponent, less the number of digits after the point.
pub open spec fn decimal_exponent(text: Seq<char>) -> int {
    let written = if has_exponent(text) {
        let size = digits_number(text, exponent_start(text), exponent_end(text));
        if text[fraction_end(text) + 1] == '-' {
            -size
        } else {
            size
        }
    } else {
        0
    };
    written - (fraction_end(text) - fraction_start(text))
}

/// The bit pattern, without the sign, of the binary32 number nearest to
/// `digits * 10^exponent`.
pub open spec fn decimal_pattern(digits: int, exponent: int) -> int {
    if exponent >= 0 {
        nearest_pattern(digits * power_of_ten(exponent as nat) * pow2(149), 1)
    } else {
        nearest_pattern(digits * pow2(149), power_of_ten((-exponent) as nat))
    }
}

/// The binary32 number that a text stands for: the number nearest to a decimal
/// number; an infinity for `inf` and `infinity`; a NaN for `nan`, each in
/// either case and after an optional sign. `None` for every other text.
pub open spec fn number_of(text: Seq<char>) -> Option<u32> {
    let negative = text.len() > 0 && text[0] == '-';
    if is_decimal(text) {
        Some(with_sign(negative, decimal_pattern(decimal_digits(text), decimal_exponent(text))))
    } else if spells(text, sign_end(text), seq!['i', 'n', 'f']) || spells(
        text,
        sign_end(text),
        seq!['i', 'n', 'f', 'i', 'n', 'i', 't', 'y'],
    ) {
        Some(with_sign(negative, 0x7F80_0000))
    } else if spells(text, sign_end(text), seq!['n', 'a', 'n']) {
        Some(NAN)
    } else {
        None
    }
}

/// Powers of ten are positive, and grow with the exponent.
pub proof fn lemma_power_of_ten(low: nat, high: nat)
    requires
        low <= high,
    ensures
        1 <= power_of_ten(low) <= power_of_ten(high),
        power_of_ten(high) == power_of_ten(low) * power_of_ten((high - low) as nat),
    decreases high,
{
    if low == high {
        assert(power_of_ten(0) == 1);
        lemma_power_of_ten_positive(low);
        assert(power_of_ten(low) * 1 == power_of_ten(low));
    } else {
        lemma_power_of_ten(low, (high - 1) as nat);
        assert(power_of_ten((high - low) as nat) == 10 * power_of_ten((high - 1 - low) as nat));
        assert(power_of_ten(low) * (10 * power_of_ten((high - 1 - low) as nat)) == 10 * (
        power_of_ten(low) * power_of_ten((high - 1 - low) as nat))) by (nonlinear_arith);
    }
}

/// Powers of ten are positive.
pub proof fn lemma_power_of_ten_positive(exponent: nat)
    ensures
        1 <= power_of_ten(exponent),
    decreases exponent,
{
    if exponent > 0 {
        lemma_power_of_ten_positive((exponent - 1) as nat);
    }
}

/// Two powers of ten against the powers of two that bound the binary32
/// numbers: 10^39 lies beyond the largest, and 10^-46 below half the smallest.
pub proof fn lemma_decimal_bounds()
    ensures
        power_of_ten(39) > pow2(128),
        power_of_ten(46) > pow2(150),
{
    lemma2_to64();
    lemma_pow2_adds(64, 64);
    lemma_pow2_adds(128, 22);
    assert(power_of_ten(13) == 10_000_000_000_000) by {
        reveal_with_fuel(power_of_ten, 14);
    }
    lemma_power_of_ten(13, 26);
    lemma_power_of_ten(26, 39);
    lemma_power_of_ten(39, 46);
    assert(power_of_ten(7) == 10_000_000) by {
        reveal_with_fuel(power_of_ten, 8);
    }
    assert(power_of_ten(26) == 100_000_000_000_000_000_000_000_000);
    assert(power_of_ten(39) == 1_000_000_000_000_000_000_000_000_000_000_000_000_000);
    assert(pow2(128) == 0x1_0000_0000_0000_0000_0000_0000_0000_0000);
    assert(pow2(22) == 0x40_0000);
    assert(power_of_ten(46) == 10_000_000_000_000_000_000_000_000_000_000_000_000_000_000_000);
}

/// A run of digits ends where the first character stands that is no digit.
pub proof fn lemma_digits_end(text: Seq<char>, from: int, end: int)
    requires
        0 <= from <= end <= text.len(),
        forall|k: int| from <= k < end ==> is_digit(#[trigger] text[k]),
        end == text.len() || !is_digit(text[end]),
    ensures
        digits_end(text, from) == end,
    decreases end - from,
{
    if from < end {
        lemma_digits_end(text, from + 1, end);
    }
}

/// The digits of a number spell a number that is not negative and has no more
/// decimal digits than there are digits.
pub proof fn lemma_digits_number(text: Seq<char>, from: int, to: int)
    requires
        0 <= from <= to <= text.len(),
        forall|k: int| from <= k < to ==> is_digit(#[trigger] text[k]),
    ensures
        0 <= digits_number(text, from, to) < power_of_ten((to - from) as nat),
    decreases to - from,
{
    if from < to {
        lemma_digits_number(text, from, to - 1);
        assert(is_digit(text[to - 1]));
    }
}

/// The largest exponent that is read digit by digit: beyond it every number
/// with a digit that is not zero is an infinity or a zero.
pub const EXPONENT_CAP: u128 = 0x10_0000_0000_0000_0000_0000_0000;

/// A number with a digit that is not zero and an exponent of 39 or more lies
/// beyond the largest finite binary32 number.
pub proof fn lemma_decimal_beyond(digits: int, exponent: int)
    requires
        1 <= digits,
        39 <= exponent,
    ensures
        decimal_pattern(digits, exponent) == 0x7F80_0000,
{
    let scale = power_of_ten(exponent as nat);
    lemma_decimal_bounds();
    lemma_power_of_ten(39, exponent as nat);
    lemma_pow2_adds(128, 149);
    lemma_pow2_pos(149);
    assert(digits * scale * pow2(149) >= pow2(277) * 1) by (nonlinear_arith)
        requires
            1 <= digits,
            scale > pow2(128),
            pow2(277) == pow2(128) * pow2(149),
            0 < pow2(149),
    ;
    lemma_nearest_beyond(digits * scale * pow2(149), 1);
}

/// A number of `count` digits whose last digit stands 46 places or more after
/// the point of its first digit's exponent is less than half the smallest
/// binary32 number.
pub proof fn lemma_decimal_little(digits: int, count: nat, exponent: int)
    requires
        0 <= digits < power_of_ten(count),
        count + exponent <= -46,
    ensures
        decimal_pattern(digits, exponent) == 0,
{
    let below = power_of_ten((-exponent) as nat);
    lemma_decimal_bounds();
    lemma_power_of_ten(count + 46, (-exponent) as nat);
    lemma_power_of_ten(count, count + 46);
    lemma_power_of_ten(0, 46);
    lemma_power_of_ten_positive(count);
    lemma_pow2_unfold(150);
    lemma_pow2_pos(149);
    assert(2 * (digits * pow2(149)) < below) by (nonlinear_arith)
        requires
            0 <= digits < power_of_ten(count),
            below >= power_of_ten(count) * power_of_ten(46),
            power_of_ten(46) > pow2(150),
            pow2(150) == 2 * pow2(149),
            0 < pow2(149),
    ;
    lemma_mul_nonnegative(digits, pow2(149) as int);
    lemma_nearest_of_little(digits * pow2(149), below);
}

/// A number without a digit that is not zero is zero.
pub proof fn lemma_decimal_zero(exponent: int)
    ensures
        decimal_pattern(0, exponent) == 0,
{
    lemma_pow2_pos(149);
    if exponent >= 0 {
        lemma_power_of_ten_positive(exponent as nat);
        assert(0 * power_of_ten(exponent as nat) * pow2(149) == 0) by (nonlinear_arith);
        lemma_nearest_of_little(0, 1);
    } else {
        lemma_power_of_ten_positive((-exponent) as nat);
        assert(0 * pow2(149) == 0);
        lemma_nearest_of_little(0, power_of_ten((-exponent) as nat));
    }
}

/// Tells whether the character is a decimal digit.
fn is_decimal_digit(c: char) -> (r: bool)
    ensures
        r == is_digit(c),
{
    let code: u32 = c as u32;
    0x30 <= code && code <= 0x39
}

/// Reads the run of digits that begins at `from`, as further digits of
/// `number`.
fn read_digits(chars: &Vec<char>, from: usize, number: Natural) -> (r: (usize, Natural))
    requires
        from <= chars.len(),
        0 <= number@,
    ensures
        from <= r.0 <= chars.len(),
        r.0 == digits_end(chars@, from as int),
        forall|k: int| from <= k < r.0 ==> is_digit(#[trigger] chars@[k]),
        r.1@ == number@ * power_of_ten((r.0 - from) as nat) + digits_number(
            chars@,
            from as int,
            r.0 as int,
        ),
        0 <= r.1@,
{
    let mut i: usize = from;
    let mut digits = number;
    proof {
        assert(number@ * power_of_ten(0) == number@);
    }
    while i < chars.len() && is_decimal_digit(chars[i])
        invariant
            from <= i <= chars.len(),
            forall|k: int| from <= k < i ==> is_digit(#[trigger] chars@[k]),
            digits@ == number@ * power_of_ten((i - from) as nat) + digits_number(
                chars@,
                from as int,
                i as int,
            ),
            0 <= digits@,
        decreases chars.len() - i,
    {
        let digit: u32 = chars[i] as u32 - 0x30;
        proof {
            assert(number@ * power_of_ten((i + 1 - from) as nat) == 10 * (number@ * power_of_ten(
                (i - from) as nat,
            ))) by (nonlinear_arith)
                requires
                    power_of_ten((i + 1 - from) as nat) == 10 * power_of_ten((i - from) as nat),
            ;
        }
        digits = digits.times_plus(10, digit);
        i += 1;
    }
    proof {
        lemma_digits_end(chars@, from as int, i as int);
    }
    (i, digits)
}

/// Reads the run of digits that begins at `from` as the size of an exponent.
/// A size beyond `EXPONENT_CAP` is not read to its end: it is returned as
/// some number beyond the cap.
fn read_exponent(chars: &Vec<char>, from: usize) -> (r: (usize, u128))
    requires
        from <= chars.len(),
    ensures
        from <= r.0 <= chars.len(),
        r.0 == digits_end(chars@, from as int),
        r.1 < 0x1000_0000_0000_0000_0000_0000_0000,
        r.1 < EXPONENT_CAP ==> r.1 == digits_number(chars@, from as int, r.0 as int),
        r.1 >= EXPONENT_CAP ==> digits_number(chars@, from as int, r.0 as int) >= EXPONENT_CAP,
{
    let mut i: usize = from;
    let mut size: u128 = 0;
    while i < chars.len() && is_decimal_digit(chars[i])
        invariant
            from <= i <= chars.len(),
            forall|k: int| from <= k < i ==> is_digit(#[trigger] chars@[k]),
            size < 0x1000_0000_0000_0000_0000_0000_0000,
            size < EXPONENT_CAP ==> size == digits_number(chars@, from as int, i as int),
            size >= EXPONENT_CAP ==> digits_number(chars@, from as int, i as int) >= EXPONENT_CAP,
        decreases chars.len() - i,
    {
        let digit: u128 = (chars[i] as u32 - 0x30) as u128;
        if size < EXPONENT_CAP {
            size = 10 * size + digit;
        }
        i += 1;
    }
    proof {
        lemma_digits_end(chars@, from as int, i as int);
    }
    (i, size)
}

/// Multiplies a number by a power of ten.
fn times_power_of_ten(value: &Natural, exponent: u128) -> (r: Natural)
    ensures
        r@ == value@ * power_of_ten(exponent as nat),
{
    let mut r = value.times_plus(1, 0);
    let mut done: u128 = 0;
    proof {
        assert(value@ * 1 == value@);
        assert(value@ * power_of_ten(0) == value@);
    }
    while done < exponent
        invariant
            done <= exponent,
            r@ == value@ * power_of_ten(done as nat),
        decreases exponent - done,
    {
        proof {
            assert(value@ * power_of_ten((done + 1) as nat) == (value@ * power_of_ten(
                done as nat,
            )) * 10) by (nonlinear_arith)
                requires
                    power_of_ten((done + 1) as nat) == 10 * power_of_ten(done as nat),
            ;
        }
        r = r.times_plus(10, 0);
        done += 1;
    }
    r
}

/// Tells whether the characters from `from` on spell `inf` or `infinity`, in
/// either case.
fn spells_infinity(chars: &Vec<char>, from: usize) -> (r: bool)
    requires
        from <= chars.len(),
    ensures
        r == (spells(chars@, from as int, seq!['i', 'n', 'f']) || spells(
            chars@,
            from as int,
            seq!['i', 'n', 'f', 'i', 'n', 'i', 't', 'y'],
        )),
{
    let ghost short = seq!['i', 'n', 'f'];
    let ghost long = seq!['i', 'n', 'f', 'i', 'n', 'i', 't', 'y'];
    let rest = chars.len() - from;
    if rest == 3 {
        let found = is_letter(chars[from], 'i', 'I') && is_letter(chars[from + 1], 'n', 'N')
            && is_letter(chars[from + 2], 'f', 'F');
        proof {
            if spells(chars@, from as int, short) {
                assert(lower_case(chars@[from + 0]) == short[0]);
                assert(lower_case(chars@[from + 1]) == short[1]);
                assert(lower_case(chars@[from + 2]) == short[2]);
            }
        }
        found
    } else if rest == 8 {
        let found = is_letter(chars[from], 'i', 'I') && is_letter(chars[from + 1], 'n', 'N')
            && is_letter(chars[from + 2], 'f', 'F') && is_letter(chars[from + 3], 'i', 'I')
            && is_letter(chars[from + 4], 'n', 'N') && is_letter(chars[from + 5], 'i', 'I')
            && is_letter(chars[from + 6], 't', 'T') && is_letter(chars[from + 7], 'y', 'Y');
        proof {
            if spells(chars@, from as int, long) {
                assert(lower_case(chars@[from + 0]) == long[0]);
                assert(lower_case(chars@[from + 1]) == long[1]);
                assert(lower_case(chars@[from + 2]) == long[2]);
                assert(lower_case(chars@[from + 3]) == long[3]);
                assert(lower_case(chars@[from + 4]) == long[4]);
                assert(lower_case(chars@[from + 5]) == long[5]);
                assert(lower_case(chars@[from + 6]) == long[6]);
                assert(lower_case(chars@[from + 7]) == long[7]);
            }
        }
        found
    } else {
        false
    }
}

/// Tells whether the characters from `from` on spell `nan`, in either case.
fn spells_nan(chars: &Vec<char>, from: usize) -> (r: bool)
    requires
        from <= chars.len(),
    ensures
        r == spells(chars@, from as int, seq!['n', 'a', 'n']),
{
    let ghost word = seq!['n', 'a', 'n'];
    if chars.len() - from == 3 {
        let found = is_letter(chars[from], 'n', 'N') && is_letter(chars[from + 1], 'a', 'A')
            && is_letter(chars[from + 2], 'n', 'N');
        proof {
            if spells(chars@, from as int, word) {
                assert(lower_case(chars@[from + 0]) == word[0]);
                assert(lower_case(chars@[from + 1]) == word[1]);
                assert(lower_case(chars@[from + 2]) == word[2]);
            }
        }
        found
    } else {
        false
    }
}

/// Tells whether the character is the given letter, in either case.
fn is_letter(c: char, lower: char, upper: char) -> (r: bool)
    requires
        'a' <= lower <= 'z',
        upper as u32 + 0x20 == lower as u32,
    ensures
        r == (lower_case(c) == lower),
{
    c == lower || c == upper
}

/// What reading a text as a decimal number finds.
struct Scan {
    /// Whether the text is a decimal number.
    valid: bool,
    /// Its digits, the point left out, as one whole number.
    digits: Natural,
    /// How many digits there are.
    count: usize,
    /// How many of them stand after the point.
    places: usize,
    /// Whether the exponent is written with a minus sign.
    exponent_negative: bool,
    /// The size of the exponent as written, or some number beyond
    /// `EXPONENT_CAP`.
    exponent_size: u128,
}

/// Whether what was read of the exponent agrees with the exponent of the number
/// `digits * 10^exact`, which counts the places after the point too.
spec fn exponent_read(exact: int, places: int, negative: bool, size: int) -> bool {
    let written = exact + places;
    if size < EXPONENT_CAP {
        written == if negative {
            -size
        } else {
            size
        }
    } else if negative {
        written <= -(EXPONENT_CAP as int)
    } else {
        written >= EXPONENT_CAP
    }
}

/// Reads the characters as a decimal number: where its parts stand, and
/// what they spell.
fn scan_decimal(chars: &Vec<char>) -> (r: Scan)
    ensures
        r.valid == is_decimal(chars@),
        r.valid ==> {
            &&& r.digits@ == decimal_digits(chars@)
            &&& 0 <= r.digits@ < power_of_ten(r.count as nat)
            &&& r.places <= r.count
            &&& r.exponent_size < 0x1000_0000_0000_0000_0000_0000_0000
            &&& exponent_read(
                decimal_exponent(chars@),
                r.places as int,
                r.exponent_negative,
                r.exponent_size as int,
            )
        },
{
    let length = chars.len();
    let start: usize = if length > 0 && (chars[0] == '+' || chars[0] == '-') {
        1
    } else {
        0
    };
    let (whole_end, whole) = read_digits(chars, start, Natural::from_small(0));
    let fraction_start: usize = if whole_end < length && chars[whole_end] == '.' {
        whole_end + 1
    } else {
        whole_end
    };
    let (fraction_end, digits) = read_digits(chars, fraction_start, whole);
    let places: usize = fraction_end - fraction_start;
    let count: usize = (whole_end - start) + places;
    let marked = fraction_end < length && (chars[fraction_end] == 'e' || chars[fraction_end]
        == 'E');
    let mut valid = count >= 1;
    let mut exponent_negative = false;
    let mut exponent_size: u128 = 0;
    if marked {
        let after = fraction_end + 1;
        let exponent_start: usize = if after < length && (chars[after] == '+' || chars[after]
            == '-') {
            after + 1
        } else {
            after
        };
        exponent_negative = after < length && chars[after] == '-';
        let (exponent_end, read) = read_exponent(chars, exponent_start);
        exponent_size = read;
        valid = valid && exponent_start < exponent_end && exponent_end == length;
    } else {
        valid = valid && fraction_end == length;
    }
    proof {
        // the digits are fewer than 10^count
        let before = digits_number(chars@, start as int, whole_end as int);
        let behind = digits_number(chars@, fraction_start as int, fraction_end as int);
        assert(0 * power_of_ten((whole_end - start) as nat) == 0);
        lemma_digits_number(chars@, start as int, whole_end as int);
        lemma_digits_number(chars@, fraction_start as int, fraction_end as int);
        lemma_power_of_ten(places as nat, count as nat);
        lemma_power_of_ten_positive(places as nat);
        assert(before * power_of_ten(places as nat) + behind < power_of_ten(count as nat))
            by (nonlinear_arith)
            requires
                before + 1 <= power_of_ten((whole_end - start) as nat),
                behind < power_of_ten(places as nat),
                power_of_ten(count as nat) == power_of_ten(places as nat) * power_of_ten(
                    (whole_end - start) as nat,
                ),
                0 <= power_of_ten(places as nat),
        ;
    }
    Scan { valid, digits, count, places, exponent_negative, exponent_size }
}

/// Rounds the decimal number `digits * 10^exact` to the nearest binary32
/// number, given what was read of its exponent.
fn round_decimal(scan: &Scan, Ghost(exact): Ghost<int>) -> (pattern: u32)
    requires
        0 <= scan.digits@ < power_of_ten(scan.count as nat),
        scan.places <= scan.count,
        scan.exponent_size < 0x1000_0000_0000_0000_0000_0000_0000,
        exponent_read(exact, scan.places as int, scan.exponent_negative, scan.exponent_size as int),
    ensures
        pattern == decimal_pattern(scan.digits@, exact),
        pattern <= 0x7F80_0000,
{
    if scan.digits.is_zero() {
        proof {
            lemma_decimal_zero(exact);
        }
        return 0;
    }
    let exponent: i128 = if scan.exponent_negative {
        -(scan.exponent_size as i128) - scan.places as i128
    } else {
        scan.exponent_size as i128 - scan.places as i128
    };
    if exponent >= 39 {
        proof {
            lemma_decimal_beyond(scan.digits@, exact);
        }
        return 0x7F80_0000;
    }
    if scan.count as i128 + exponent <= -46 {
        proof {
            lemma_decimal_little(scan.digits@, scan.count as nat, exact);
        }
        return 0;
    }
    assert(exponent == exact);
    if exponent >= 0 {
        let top = times_power_of_ten(&scan.digits, exponent as u128);
        let bottom = Natural::from_small(1);
        round_quotient(&top, &bottom)
    } else {
        let bottom = times_power_of_ten(&Natural::from_small(1), (-exponent) as u128);
        proof {
            lemma_power_of_ten_positive((-exponent) as nat);
            assert(1 * power_of_ten((-exponent) as nat) == power_of_ten((-exponent) as nat));
        }
        round_quotient(&scan.digits, &bottom)
    }
}

/// Rounds the decimal number `digits * 10^exponent`, of at most `count`
/// digits, to the nearest binary32 number, and returns its bit pattern,
/// without a sign.
pub fn nearest_to_decimal(digits: &Natural, count: usize, exponent: i32) -> (pattern: u32)
    requires
        0 <= digits@ < power_of_ten(count as nat),
    ensures
        pattern == decimal_pattern(digits@, exponent as int),
        pattern <= 0x7F80_0000,
{
    proof {
        assert(digits@ * 1 == digits@);
    }
    let scan = Scan {
        valid: true,
        digits: digits.times_plus(1, 0),
        count,
        places: 0,
        exponent_negative: exponent < 0,
        exponent_size: if exponent < 0 {
            (-(exponent as i64)) as u128
        } else {
            exponent as u128
        },
    };
    round_decimal(&scan, Ghost(exponent as int))
}

/// Reads a text as a binary32 number.
///
/// The text is a decimal number, with an optional sign, an optional point and
/// an optional exponent; or `inf`, `infinity` or `nan`, in either case, with an
/// optional sign. White space is no part of a number. A decimal number is
/// rounded to the nearest binary32 number: to an infinity where it lies beyond
/// the largest of them, and to zero where it is less than half the smallest.
pub fn parse_number(text: &str) -> (r: Option<u32>)
    ensures
        r == number_of(text@),
{
    let chars = characters(text);
    read_number(&chars)
}

/// Reads the characters of a text as a binary32 number, as `parse_number`
/// does.
pub fn read_number(chars: &Vec<char>) -> (r: Option<u32>)
    ensures
        r == number_of(chars@),
{
    let length = chars.len();
    let negative = length > 0 && chars[0] == '-';
    let start: usize = if length > 0 && (chars[0] == '+' || chars[0] == '-') {
        1
    } else {
        0
    };
    let scan = scan_decimal(chars);
    if scan.valid {
        let pattern = round_decimal(&scan, Ghost(decimal_exponent(chars@)));
        Some(signed(negative, pattern))
    } else if spells_infinity(chars, start) {
        Some(signed(negative, 0x7F80_0000))
    } else if spells_nan(chars, start) {
        Some(NAN)
    } else {
        None
    }
}

} // verus!
