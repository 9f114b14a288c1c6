//! Reading hexadecimal digits, and reading the numbers of a functional notation.
use crate::binary32::{is_le, le};
use crate::binary32::decimal::{number_of, read_number};
use crate::error::ColorError;
use crate::utils::text::{characters, copy_range, trim_range, trimmed};
use vstd::prelude::*;
use vstd::string::*;

verus! {

/// The ASCII byte of the digit `0`.
pub const DIGIT_0: u8 = 0x30;

/// The ASCII byte of the digit `9`.
pub const DIGIT_9: u8 = 0x39;

/// The ASCII byte of the letter `A`.
pub const UPPER_A: u8 = 0x41;

/// The ASCII byte of the letter `F`.
pub const UPPER_F: u8 = 0x46;

/// The ASCII byte of the letter `a`.
pub const LOWER_A: u8 = 0x61;

/// The ASCII byte of the letter `f`.
pub const LOWER_F: u8 = 0x66;

/// The value of a hexadecimal digit, of either case, given as its ASCII byte.
pub open spec fn hex_digit_value(byte: u8) -> Option<u8> {
    if DIGIT_0 <= byte <= DIGIT_9 {
        Some((byte - DIGIT_0) as u8)
    } else if LOWER_A <= byte <= LOWER_F {
        Some((byte - LOWER_A + 10) as u8)
    } else if UPPER_A <= byte <= UPPER_F {
        Some((byte - UPPER_A + 10) as u8)
    } else {
        None
    }
}

/// Whether every byte is a hexadecimal digit.
pub open spec fn all_hex_digits(bytes: Seq<u8>) -> bool {
    forall|i: int| 0 <= i < bytes.len() ==> (#[trigger] hex_digit_value(bytes[i])) is Some
}

/// The number that the hexadecimal digits spell, the first digit weighing most.
pub open spec fn hex_number(bytes: Seq<u8>) -> nat
    decreases bytes.len(),
{
    if bytes.len() == 0 {
        0
    } else {
        16 * hex_number(bytes.drop_last()) + match hex_digit_value(bytes.last()) {
            Some(digit) => digit as nat,
            None => 0,
        }
    }
}

/// The byte that a text of hexadecimal digits spells: the text is not empty,
/// holds nothing but digits, and spells no more than 255.
pub open spec fn parsed_hex(bytes: Seq<u8>) -> Result<u8, ColorError> {
    if bytes.len() > 0 && all_hex_digits(bytes) && hex_number(bytes) <= 255 {
        Ok(hex_number(bytes) as u8)
    } else {
        Err(ColorError::InvalidColorFormat)
    }
}

/// The byte that the two digits at `at` and `at + 1` spell.
pub open spec fn hex_pair(bytes: Seq<u8>, at: int) -> Option<u8> {
    match (hex_digit_value(bytes[at]), hex_digit_value(bytes[at + 1])) {
        (Some(high), Some(low)) => Some((16 * high + low) as u8),
        _ => None,
    }
}

/// The three channels that six hexadecimal digits spell. Two more bytes may
/// follow, as the opacity of the long notation does: they are not looked at.
pub open spec fn parsed_rgb(bytes: Seq<u8>) -> Result<(u8, u8, u8), ColorError> {
    if bytes.len() == 6 || bytes.len() == 8 {
        match (hex_pair(bytes, 0), hex_pair(bytes, 2), hex_pair(bytes, 4)) {
            (Some(red), Some(green), Some(blue)) => Ok((red, green, blue)),
            _ => Err(ColorError::InvalidColorFormat),
        }
    } else {
        Err(ColorError::InvalidColorFormat)
    }
}

/// The number of a component of a functional notation: the component,
/// without the white space around it, is read as a binary32 number, and the
/// number lies between `min` and `max`, both included. A NaN lies in no range.
pub open spec fn validated(text: Seq<char>, min: u32, max: u32) -> Result<u32, ColorError> {
    match number_of(trimmed(text)) {
        Some(value) => if le(min, value) && le(value, max) {
            Ok(value)
        } else {
            Err(ColorError::InvalidColorFormat)
        },
        None => Err(ColorError::InvalidColorFormat),
    }
}

/// The digits read so far spell no more than all of them.
pub proof fn lemma_hex_number_grows(bytes: Seq<u8>, count: int)
    requires
        0 <= count <= bytes.len(),
    ensures
        hex_number(bytes.take(count)) <= hex_number(bytes),
    decreases bytes.len(),
{
    if count == bytes.len() {
        assert(bytes.take(count) == bytes);
    } else {
        assert(bytes.drop_last().take(count) == bytes.take(count));
        lemma_hex_number_grows(bytes.drop_last(), count);
    }
}

/// Reads one hexadecimal digit.
pub fn hex_digit(byte: u8) -> (r: Option<u8>)
    ensures
        r == hex_digit_value(byte),
        r matches Some(digit) ==> digit < 16,
{
    if DIGIT_0 <= byte && byte <= DIGIT_9 {
        Some(byte - DIGIT_0)
    } else if LOWER_A <= byte && byte <= LOWER_F {
        Some(byte - LOWER_A + 10)
    } else if UPPER_A <= byte && byte <= UPPER_F {
        Some(byte - UPPER_A + 10)
    } else {
        None
    }
}

/// Reads the two hexadecimal digits at `at` and `at + 1` as one byte.
pub fn hex_pair_at(bytes: &[u8], at: usize) -> (r: Option<u8>)
    requires
        at + 1 < bytes.len(),
    ensures
        r == hex_pair(bytes@, at as int),
{
    match (hex_digit(bytes[at]), hex_digit(bytes[at + 1])) {
        (Some(high), Some(low)) => Some(16 * high + low),
        _ => None,
    }
}

/// Reads a text of hexadecimal digits as one byte.
///
/// Digits of either case are accepted, and any number of leading zeros. An empty
/// text, any other character, and a number above 255 give
/// `InvalidColorFormat`.
pub fn parse_hex(value: &str) -> (r: Result<u8, ColorError>)
    ensures
        r == parsed_hex(value.spec_bytes()),
{
    let bytes = value.as_bytes();
    let length = bytes.len();
    if length == 0 {
        return Err(ColorError::InvalidColorFormat);
    }
    let mut number: u32 = 0;
    let mut i: usize = 0;
    while i < length
        invariant
            i <= length,
            length == bytes@.len(),
            bytes@ == value.spec_bytes(),
            all_hex_digits(bytes@.take(i as int)),
            number == hex_number(bytes@.take(i as int)),
            number <= 255,
        decreases length - i,
    {
        let ghost read = bytes@.take(i + 1);
        assert(read.drop_last() == bytes@.take(i as int));
        match hex_digit(bytes[i]) {
            None => {
                return Err(ColorError::InvalidColorFormat);
            },
            Some(digit) => {
                number = 16 * number + digit as u32;
                assert(all_hex_digits(read)) by {
                    assert forall|k: int| 0 <= k < read.len() implies (#[trigger] hex_digit_value(
                        read[k],
                    )) is Some by {
                        if k < i {
                            assert(read[k] == bytes@.take(i as int)[k]);
                        }
                    }
                }
                if number > 255 {
                    proof {
                        lemma_hex_number_grows(bytes@, i + 1);
                    }
                    return Err(ColorError::InvalidColorFormat);
                }
            },
        }
        i += 1;
    }
    assert(bytes@.take(length as int) == bytes@);
    Ok(number as u8)
}

/// Reads the three channels of a long hexadecimal notation, `RRGGBB` or
/// `RRGGBBAA`, the `#` left out.
///
/// A text of another length, and a character among the first six that is no
/// hexadecimal digit, give `InvalidColorFormat`.
pub fn parse_rgb_from_hex(hex: &str) -> (r: Result<(u8, u8, u8), ColorError>)
    ensures
        r == parsed_rgb(hex.spec_bytes()),
{
    let bytes = hex.as_bytes();
    if bytes.len() != 6 && bytes.len() != 8 {
        return Err(ColorError::InvalidColorFormat);
    }
    match (hex_pair_at(bytes, 0), hex_pair_at(bytes, 2), hex_pair_at(bytes, 4)) {
        (Some(red), Some(green), Some(blue)) => Ok((red, green, blue)),
        _ => Err(ColorError::InvalidColorFormat),
    }
}

/// Reads the characters from `from` up to `to` as one component of a
/// functional notation, as `parse_and_validate_rgba` does.
pub fn validate_component(chars: &Vec<char>, from: usize, to: usize, min: u32, max: u32) -> (r:
    Result<u32, ColorError>)
    requires
        from <= to <= chars.len(),
    ensures
        r == validated(chars@.subrange(from as int, to as int), min, max),
{
    let (begin, end) = trim_range(chars, from, to);
    let component = copy_range(chars, begin, end);
    match read_number(&component) {
        Some(value) => {
            if is_le(min, value) && is_le(value, max) {
                Ok(value)
            } else {
                Err(ColorError::InvalidColorFormat)
            }
        },
        None => Err(ColorError::InvalidColorFormat),
    }
}

/// Reads one component of a functional notation and checks its range.
///
/// The text, without the white space around it, is read as a binary32
/// number: a decimal number with an optional sign, point and exponent. The
/// number is returned, as its bit pattern, if it lies between `min` and `max`,
/// both included. A text that is no number, and a number outside the range,
/// give `InvalidColorFormat`.
pub fn parse_and_validate_rgba(input: &str, min: u32, max: u32) -> (r: Result<u32, ColorError>)
    ensures
        r == validated(input@, min, max),
{
    let chars = characters(input);
    assert(chars@.subrange(0, chars@.len() as int) == chars@);
    validate_component(&chars, 0, chars.len(), min, max)
}

} // verus!
