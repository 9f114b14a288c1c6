//! The color value, its two notations, and what holds between them.
use crate::binary32::{
    clamp_to_unit, clamped_to_unit, is_nan, is_near_one, le, lemma_scaled_constants, MAX_CHANNEL,
    near_one, ONE, one_unit, round_to_byte, rounded_byte, SIGN_BIT, units, ZERO,
};
use crate::binary32::arithmetic::{
    blend, blend_numbers, byte_fraction, byte_number, difference, divide, fraction_of_byte,
    from_byte, HUNDRED, product, quotient, scale_to_byte, scaled_byte, sum,
};
use crate::binary32::laws::{
    lemma_blend_at_one, lemma_blend_at_zero, lemma_blend_between, lemma_byte_round_trip,
    lemma_difference_in_unit_range, lemma_product_with_one, lemma_product_with_zero,
    lemma_quotient_by_itself, lemma_quotient_of_zero, lemma_ratio_of_percentage,
    lemma_sum_with_zero,
};
use crate::binary32::writing::{number_text, write_number};
use crate::error::ColorError;
use crate::utils::format::{
    decimal_text, hex_pair_text, push_decimal, push_hex_pair, upper_hex_digit,
};
use crate::utils::parse::{
    hex_digit, hex_digit_value, hex_pair, hex_pair_at, parsed_rgb, validate_component, validated,
};
use crate::utils::text::{characters, split_on, split_range, trim_range, trimmed};
use vstd::utf8::{encode_utf8, is_ascii_chars, is_ascii_chars_encode_utf8};
use vstd::prelude::*;
use vstd::string::*;

verus! {

/// The ASCII byte of `#`, with which the hexadecimal notation begins.
pub const HASH: u8 = 0x23;

/// An RGB color with an opacity.
///
/// `alpha` is the opacity as the bit pattern of an IEEE 754 binary32 number:
/// zero is transparent, one is opaque. The constructors keep it from zero to
/// one.
#[derive(Clone, Copy, Debug, PartialEq, Eq, Structural)]
pub struct Color {
    /// Red channel, 0 to 255.
    pub red: u8,
    /// Green channel, 0 to 255.
    pub green: u8,
    /// Blue channel, 0 to 255.
    pub blue: u8,
    /// Opacity, from zero to one, as the bit pattern of a binary32 number.
    pub alpha: u32,
}

/// The color that a hexadecimal notation stands for, given as the bytes of the
/// text.
///
/// After the `#`, three digits are the short notation, in which each digit
/// stands for the byte that repeats it; six digits are the three channels; eight
/// digits are the three channels and the opacity, a byte that is divided by 255.
pub open spec fn hex_color(bytes: Seq<u8>) -> Result<Color, ColorError> {
    if bytes.len() == 0 || bytes[0] != HASH {
        Err(ColorError::InvalidFormat)
    } else {
        let digits = bytes.skip(1);
        if digits.len() == 3 {
            match (
                hex_digit_value(digits[0]),
                hex_digit_value(digits[1]),
                hex_digit_value(digits[2]),
            ) {
                (Some(red), Some(green), Some(blue)) => Ok(
                    Color {
                        red: (17 * red) as u8,
                        green: (17 * green) as u8,
                        blue: (17 * blue) as u8,
                        alpha: ONE,
                    },
                ),
                _ => Err(ColorError::InvalidColorFormat),
            }
        } else if digits.len() == 6 {
            match parsed_rgb(digits) {
                Ok((red, green, blue)) => Ok(Color { red, green, blue, alpha: ONE }),
                Err(error) => Err(error),
            }
        } else if digits.len() == 8 {
            match (parsed_rgb(digits), hex_pair(digits, 6)) {
                (Ok((red, green, blue)), Some(opacity)) => Ok(
                    Color { red, green, blue, alpha: byte_fraction(opacity) },
                ),
                _ => Err(ColorError::InvalidColorFormat),
            }
        } else {
            Err(ColorError::InvalidFormat)
        }
    }
}

/// Whether the text begins with `rgb(`.
pub open spec fn begins_with_rgb(text: Seq<char>) -> bool {
    text.len() >= 4 && text[0] == 'r' && text[1] == 'g' && text[2] == 'b' && text[3] == '('
}

/// Whether the text begins with `rgba(`.
pub open spec fn begins_with_rgba(text: Seq<char>) -> bool {
    text.len() >= 5 && text[0] == 'r' && text[1] == 'g' && text[2] == 'b' && text[3] == 'a'
        && text[4] == '('
}

/// What stands between the brackets of a functional notation: the notation
/// begins with `rgb(` or `rgba(` and ends with `)`.
pub open spec fn functional_arguments(notation: Seq<char>) -> Option<Seq<char>> {
    if begins_with_rgb(notation) && notation.last() == ')' {
        Some(notation.subrange(4, notation.len() - 1))
    } else if begins_with_rgba(notation) && notation.last() == ')' {
        Some(notation.subrange(5, notation.len() - 1))
    } else {
        None
    }
}

/// Finds what stands between the brackets of the functional notation that the
/// characters from `begin` up to `end` hold.
pub fn arguments_range(chars: &Vec<char>, begin: usize, end: usize) -> (r: Option<(usize, usize)>)
    requires
        begin <= end <= chars.len(),
    ensures
        match r {
            Some((from, to)) => begin <= from <= to <= end && functional_arguments(
                chars@.subrange(begin as int, end as int),
            ) == Some(chars@.subrange(from as int, to as int)),
            None => functional_arguments(chars@.subrange(begin as int, end as int)) is None,
        },
{
    let ghost notation = chars@.subrange(begin as int, end as int);
    let length = end - begin;
    if length < 5 || chars[end - 1] != ')' {
        assert(notation.len() >= 4 ==> notation[3] == chars@[begin + 3]);
        assert(notation.len() > 0 ==> notation.last() == chars@[end - 1]);
        return None;
    }
    assert(notation.last() == chars@[end - 1]);
    assert(notation[0] == chars@[begin + 0]);
    assert(notation[1] == chars@[begin + 1]);
    assert(notation[2] == chars@[begin + 2]);
    assert(notation[3] == chars@[begin + 3]);
    assert(notation[4] == chars@[begin + 4]);
    if chars[begin] != 'r' || chars[begin + 1] != 'g' || chars[begin + 2] != 'b' {
        return None;
    }
    if chars[begin + 3] == '(' {
        assert(notation.subrange(4, notation.len() - 1) == chars@.subrange(begin + 4, end - 1));
        Some((begin + 4, end - 1))
    } else if chars[begin + 3] == 'a' && chars[begin + 4] == '(' {
        assert(notation.subrange(5, notation.len() - 1) == chars@.subrange(begin + 5, end - 1));
        Some((begin + 5, end - 1))
    } else {
        None
    }
}

/// The channel that a component of a functional notation stands for: a number
/// from 0 to 255, rounded to the nearest integer.
pub open spec fn channel_of(component: Seq<char>) -> Option<u8> {
    match validated(component, ZERO, MAX_CHANNEL) {
        Ok(value) => Some(rounded_byte(value) as u8),
        Err(_) => None,
    }
}

/// The opacity that the components of a functional notation stand for: one
/// where there are three of them, else the fourth, a number from zero to one.
pub open spec fn opacity_of(components: Seq<Seq<char>>) -> Option<u32> {
    if components.len() == 3 {
        Some(ONE)
    } else {
        match validated(components[3], ZERO, ONE) {
            Ok(value) => Some(value),
            Err(_) => None,
        }
    }
}

/// The color that a functional notation stands for.
///
/// The text is trimmed, begins with `rgb(` or `rgba(` and ends with `)`. What
/// stands between the brackets is split at each comma into three or four
/// components, red, green, blue and the opacity, with white space allowed around
/// each. Which of the two words the text begins with does not decide how many
/// components it may hold.
pub open spec fn rgba_color(text: Seq<char>) -> Result<Color, ColorError> {
    match functional_arguments(trimmed(text)) {
        Some(arguments) => {
            let components = split_on(arguments, ',');
            if components.len() != 3 && components.len() != 4 {
                Err(ColorError::InvalidFormat)
            } else {
                match (
                    channel_of(components[0]),
                    channel_of(components[1]),
                    channel_of(components[2]),
                    opacity_of(components),
                ) {
                    (Some(red), Some(green), Some(blue), Some(alpha)) => Ok(
                        Color { red, green, blue, alpha },
                    ),
                    _ => Err(ColorError::InvalidColorFormat),
                }
            }
        },
        None => Err(ColorError::InvalidFormat),
    }
}

/// The color that a text stands for, in either notation: the hexadecimal one
/// where the text begins with `#`, the functional one for every other text.
pub open spec fn color_of(text: &str) -> Result<Color, ColorError> {
    if text.spec_bytes().len() > 0 && text.spec_bytes()[0] == HASH {
        hex_color(text.spec_bytes())
    } else {
        rgba_color(text@)
    }
}

impl Color {
    /// Whether the opacity is a number from zero to one. An opacity that is no
    /// number at all is not held against the color: no comparison moves it.
    pub open spec fn alpha_in_range(self) -> bool {
        is_nan(self.alpha) || 0 <= units(self.alpha) <= one_unit()
    }

    /// Whether the color counts as opaque: its opacity differs from one by less
    /// than 2^-23.
    pub open spec fn is_opaque(self) -> bool {
        near_one(self.alpha)
    }

    /// The hexadecimal notation of the color: `#RRGGBB` where it is opaque, else
    /// `#RRGGBBAA`, in which `AA` is 255 times the opacity with the fraction cut
    /// off.
    pub open spec fn hex_text(self) -> Seq<char> {
        let channels = seq!['#'] + hex_pair_text(self.red) + hex_pair_text(self.green)
            + hex_pair_text(self.blue);
        if self.is_opaque() {
            channels
        } else {
            channels + hex_pair_text(scaled_byte(self.alpha) as u8)
        }
    }

    /// The functional notation of the color: `rgb(r, g, b)` where it is opaque,
    /// else `rgba(r, g, b, a)`, in which `a` is the opacity in the shortest
    /// decimal notation that is read back as the same number.
    pub open spec fn rgba_text(self) -> Seq<char> {
        let channels = decimal_text(self.red) + seq![',', ' '] + decimal_text(self.green) + seq![
            ',',
            ' ',
        ] + decimal_text(self.blue);
        if self.is_opaque() {
            seq!['r', 'g', 'b', '('] + channels + seq![')']
        } else {
            seq!['r', 'g', 'b', 'a', '('] + channels + seq![',', ' '] + number_text(self.alpha)
                + seq![')']
        }
    }

    /// Creates an opaque color.
    pub fn new(red: u8, green: u8, blue: u8) -> (color: Self)
        ensures
            color == (Color { red, green, blue, alpha: ONE }),
            color.alpha_in_range(),
            color.is_opaque(),
    {
        proof {
            lemma_scaled_constants();
            vstd::arithmetic::power2::lemma_pow2_pos(126);
            vstd::arithmetic::power2::lemma_pow2_pos(149);
        }
        Color { red, green, blue, alpha: ONE }
    }

    /// Creates a color with an opacity. An opacity below zero becomes zero, one
    /// above one becomes one: it is brought into the range, not refused.
    pub fn with_alpha(red: u8, green: u8, blue: u8, alpha: u32) -> (color: Self)
        ensures
            color == (Color { red, green, blue, alpha: clamped_to_unit(alpha) }),
            color.alpha_in_range(),
    {
        proof {
            lemma_scaled_constants();
            vstd::arithmetic::power2::lemma_pow2_pos(149);
        }
        Color { red, green, blue, alpha: clamp_to_unit(alpha) }
    }

    /// The color at `percentage` hundredths of the way from this color to
    /// `other`, every number computed in binary32 arithmetic. The percentage is
    /// held to no range: below 0 and above 100 the blend runs past its ends,
    /// and a channel that leaves the range of a byte is narrowed to it.
    pub open spec fn interpolated(self, other: Color, percentage: u32) -> Color {
        let ratio = quotient(percentage, HUNDRED);
        Color {
            red: rounded_byte(blend(byte_number(self.red), byte_number(other.red), ratio)) as u8,
            green: rounded_byte(
                blend(byte_number(self.green), byte_number(other.green), ratio),
            ) as u8,
            blue: rounded_byte(blend(byte_number(self.blue), byte_number(other.blue), ratio)) as u8,
            alpha: clamped_to_unit(blend(self.alpha, other.alpha, ratio)),
        }
    }

    /// Interpolates between this color and `color`: `percentage`, the bit
    /// pattern of a binary32 number, is 0 for this color and 100 for the other.
    ///
    /// Each channel is `start + (end - start) * ratio`, in which `ratio` is
    /// `percentage / 100`, rounded to the nearest integer; the opacity is
    /// blended in the same way and brought into the range from zero to one. Nothing is refused: the percentage may
    /// lie outside 0 to 100, or be no number at all.
    pub fn interpolate(&self, color: &Color, percentage: u32) -> (r: Self)
        ensures
            r == self.interpolated(*color, percentage),
            r.alpha_in_range(),
    {
        let ratio = divide(percentage, HUNDRED);
        let red = round_to_byte(blend_numbers(from_byte(self.red), from_byte(color.red), ratio));
        let green = round_to_byte(
            blend_numbers(from_byte(self.green), from_byte(color.green), ratio),
        );
        let blue = round_to_byte(blend_numbers(from_byte(self.blue), from_byte(color.blue), ratio));
        let alpha = blend_numbers(self.alpha, color.alpha, ratio);
        Color::with_alpha(red, green, blue, alpha)
    }

    /// Reads a color in hexadecimal notation: `#RGB`, `#RRGGBB` or `#RRGGBBAA`,
    /// digits of either case, no white space anywhere.
    ///
    /// A text without the `#`, or with another number of bytes after it, gives
    /// `InvalidFormat`; a byte that is no hexadecimal digit gives
    /// `InvalidColorFormat`.
    pub fn from_hex(hex: &str) -> (r: Result<Self, ColorError>)
        ensures
            r == hex_color(hex.spec_bytes()),
            r matches Ok(color) ==> color.alpha_in_range(),
    {
        let bytes = hex.as_bytes();
        if bytes.len() == 0 || bytes[0] != HASH {
            return Err(ColorError::InvalidFormat);
        }
        let ghost digits = bytes@.skip(1);
        let count = bytes.len() - 1;
        if count == 3 {
            match (hex_digit(bytes[1]), hex_digit(bytes[2]), hex_digit(bytes[3])) {
                (Some(red), Some(green), Some(blue)) => Ok(
                    Color::new(17 * red, 17 * green, 17 * blue),
                ),
                _ => Err(ColorError::InvalidColorFormat),
            }
        } else if count == 6 || count == 8 {
            assert(hex_pair(bytes@, 1) == hex_pair(digits, 0));
            assert(hex_pair(bytes@, 3) == hex_pair(digits, 2));
            assert(hex_pair(bytes@, 5) == hex_pair(digits, 4));
            let (red, green, blue) = match (
                hex_pair_at(bytes, 1),
                hex_pair_at(bytes, 3),
                hex_pair_at(bytes, 5),
            ) {
                (Some(red), Some(green), Some(blue)) => (red, green, blue),
                _ => {
                    return Err(ColorError::InvalidColorFormat);
                },
            };
            if count == 6 {
                Ok(Color::new(red, green, blue))
            } else {
                assert(hex_pair(bytes@, 7) == hex_pair(digits, 6));
                match hex_pair_at(bytes, 7) {
                    Some(opacity) => {
                        proof {
                            lemma_byte_round_trip(opacity);
                        }
                        Ok(Color { red, green, blue, alpha: fraction_of_byte(opacity) })
                    },
                    None => Err(ColorError::InvalidColorFormat),
                }
            }
        } else {
            Err(ColorError::InvalidFormat)
        }
    }

    /// Reads a color in functional notation: `rgb(r, g, b)` or
    /// `rgba(r, g, b, a)`.
    ///
    /// White space is allowed around the whole and around each component. Red,
    /// green and blue are decimal numbers from 0 to 255, both included, and are
    /// rounded to the nearest integer, halves upwards; the opacity is a decimal
    /// number from zero to one, both included, and is one where it is left out.
    /// A text of another shape, or with another number of components, gives
    /// `InvalidFormat`; a component that is no number, or lies outside its
    /// range, gives `InvalidColorFormat`.
    pub fn from_rgba(input: &str) -> (r: Result<Self, ColorError>)
        ensures
            r == rgba_color(input@),
            r matches Ok(color) ==> color.alpha_in_range(),
    {
        let chars = characters(input);
        let (begin, end) = trim_range(&chars, 0, chars.len());
        assert(chars@.subrange(0, chars@.len() as int) == chars@);
        let (inner_begin, inner_end) = match arguments_range(&chars, begin, end) {
            Some(range) => range,
            None => {
                return Err(ColorError::InvalidFormat);
            },
        };
        let ranges = match split_range(&chars, inner_begin, inner_end, ',', 4) {
            Some(ranges) => ranges,
            None => {
                return Err(ColorError::InvalidFormat);
            },
        };
        if ranges.len() < 3 {
            return Err(ColorError::InvalidFormat);
        }
        let red = match validate_component(&chars, ranges[0].0, ranges[0].1, ZERO, MAX_CHANNEL) {
            Ok(value) => round_to_byte(value),
            Err(error) => {
                return Err(error);
            },
        };
        let green = match validate_component(&chars, ranges[1].0, ranges[1].1, ZERO, MAX_CHANNEL) {
            Ok(value) => round_to_byte(value),
            Err(error) => {
                return Err(error);
            },
        };
        let blue = match validate_component(&chars, ranges[2].0, ranges[2].1, ZERO, MAX_CHANNEL) {
            Ok(value) => round_to_byte(value),
            Err(error) => {
                return Err(error);
            },
        };
        let alpha = if ranges.len() == 4 {
            match validate_component(&chars, ranges[3].0, ranges[3].1, ZERO, ONE) {
                Ok(value) => value,
                Err(error) => {
                    return Err(error);
                },
            }
        } else {
            ONE
        };
        proof {
            lemma_scaled_constants();
            vstd::arithmetic::power2::lemma_pow2_pos(149);
        }
        Ok(Color::with_alpha(red, green, blue, alpha))
    }

    /// Writes the color in hexadecimal notation, with upper-case digits:
    /// `#RRGGBB` where it is opaque, else `#RRGGBBAA`.
    pub fn to_hex(&self) -> (text: String)
        ensures
            text@ == self.hex_text(),
            text@.len() == (if self.is_opaque() {
                7int
            } else {
                9int
            }),
    {
        let mut text = String::from_str("#");
        proof {
            reveal_strlit("#");
        }
        push_hex_pair(&mut text, self.red);
        push_hex_pair(&mut text, self.green);
        push_hex_pair(&mut text, self.blue);
        if !is_near_one(self.alpha) {
            push_hex_pair(&mut text, scale_to_byte(self.alpha));
        }
        assert(text@ =~= self.hex_text());
        text
    }

    /// Writes the color as its canonical text, the hexadecimal notation.
    pub fn to_string(&self) -> (text: String)
        ensures
            text@ == self.hex_text(),
    {
        self.to_hex()
    }

    /// Writes the color in functional notation: `rgb(r, g, b)` where it is
    /// opaque, else `rgba(r, g, b, a)`, with the opacity in decimal.
    pub fn to_rgba(&self) -> (text: String)
        ensures
            text@ == self.rgba_text(),
            self.is_opaque() ==> begins_with_rgb(text@) && !begins_with_rgba(text@),
            !self.is_opaque() ==> begins_with_rgba(text@) && !begins_with_rgb(text@),
    {
        proof {
            reveal_strlit("rgb(");
            reveal_strlit("rgba(");
            reveal_strlit(", ");
            reveal_strlit(")");
        }
        let opaque = is_near_one(self.alpha);
        let mut text = if opaque {
            String::from_str("rgb(")
        } else {
            String::from_str("rgba(")
        };
        let ghost word = text@;
        push_decimal(&mut text, self.red);
        text.append(", ");
        push_decimal(&mut text, self.green);
        text.append(", ");
        push_decimal(&mut text, self.blue);
        if !opaque {
            let alpha = write_number(self.alpha);
            text.append(", ");
            text.append(alpha.as_str());
        }
        text.append(")");
        proof {
            assert("rgb("@ =~= seq!['r', 'g', 'b', '(']);
            assert("rgba("@ =~= seq!['r', 'g', 'b', 'a', '(']);
            assert(", "@ =~= seq![',', ' ']);
            assert(")"@ =~= seq![')']);
            assert(text@ =~= self.rgba_text());
            assert(word =~= text@.subrange(0, word.len() as int));
            assert(text@[0] == text@.subrange(0, word.len() as int)[0]);
            assert(text@[1] == text@.subrange(0, word.len() as int)[1]);
            assert(text@[2] == text@.subrange(0, word.len() as int)[2]);
            assert(text@[3] == text@.subrange(0, word.len() as int)[3]);
            if !opaque {
                assert(text@[4] == text@.subrange(0, word.len() as int)[4]);
            }
        }
        text
    }
}

impl TryFrom<&str> for Color {
    type Error = ColorError;

    /// Reads a color in either notation: the hexadecimal one where the text
    /// begins with `#`, the functional one for every other text.
    fn try_from(value: &str) -> (r: Result<Self, ColorError>) {
        let bytes = value.as_bytes();
        if bytes.len() > 0 && bytes[0] == HASH {
            Color::from_hex(value)
        } else {
            Color::from_rgba(value)
        }
    }
}

impl vstd::std_specs::convert::TryFromSpecImpl<&str> for Color {
    open spec fn obeys_try_from_spec() -> bool {
        true
    }

    open spec fn try_from_spec(value: &str) -> Result<Self, ColorError> {
        color_of(value)
    }
}

/// Every color that is read has an opacity from zero to one, whichever
/// notation it is read from.
pub proof fn lemma_read_in_range(text: &str)
    ensures
        color_of(text) matches Ok(color) ==> color.alpha_in_range() && !is_nan(color.alpha),
        hex_color(text.spec_bytes()) matches Ok(color) ==> color.alpha_in_range() && !is_nan(
            color.alpha,
        ),
        rgba_color(text@) matches Ok(color) ==> color.alpha_in_range() && !is_nan(color.alpha),
{
    lemma_scaled_constants();
    vstd::arithmetic::power2::lemma_pow2_pos(149);
    if let Ok(color) = hex_color(text.spec_bytes()) {
        let digits = text.spec_bytes().skip(1);
        if digits.len() == 8 {
            lemma_byte_round_trip(hex_pair(digits, 6).unwrap());
        }
    }
}

/// A hexadecimal digit that was written is read back as the same value.
pub proof fn lemma_hex_digit_round_trip(value: int)
    requires
        0 <= value < 16,
    ensures
        upper_hex_digit(value) as u32 <= 0x7F,
        hex_digit_value(upper_hex_digit(value) as u8) == Some(value as u8),
{
}

/// Whether the two characters at `at` and `at + 1` are the hexadecimal digits
/// of `byte`.
pub open spec fn holds_pair(text: Seq<char>, at: int, byte: u8) -> bool {
    &&& 0 <= at
    &&& at + 1 < text.len()
    &&& text[at] == upper_hex_digit(byte as int / 16)
    &&& text[at + 1] == upper_hex_digit(byte as int % 16)
}

/// The characters of a hexadecimal notation, one by one.
proof fn lemma_hex_text_pairs(color: Color)
    ensures
        is_ascii_chars(color.hex_text()),
        color.hex_text()[0] == '#',
        holds_pair(color.hex_text(), 1, color.red),
        holds_pair(color.hex_text(), 3, color.green),
        holds_pair(color.hex_text(), 5, color.blue),
        color.is_opaque() ==> color.hex_text().len() == 7,
        !color.is_opaque() ==> color.hex_text().len() == 9 && holds_pair(
            color.hex_text(),
            7,
            scaled_byte(color.alpha) as u8,
        ),
{
    let text = color.hex_text();
    lemma_hex_digit_round_trip(color.red as int / 16);
    lemma_hex_digit_round_trip(color.red as int % 16);
    lemma_hex_digit_round_trip(color.green as int / 16);
    lemma_hex_digit_round_trip(color.green as int % 16);
    lemma_hex_digit_round_trip(color.blue as int / 16);
    lemma_hex_digit_round_trip(color.blue as int % 16);
    lemma_hex_digit_round_trip((scaled_byte(color.alpha) as u8) as int / 16);
    lemma_hex_digit_round_trip((scaled_byte(color.alpha) as u8) as int % 16);
}

/// The hexadecimal notation of a color is made of characters of ASCII.
pub proof fn lemma_hex_text_is_ascii(color: Color)
    ensures
        is_ascii_chars(color.hex_text()),
{
    lemma_hex_text_pairs(color);
}

/// Two hexadecimal digits that were written are read back as the byte they
/// were written for. `at` counts the characters, the `#` included.
proof fn lemma_pair_is_read(text: Seq<char>, at: int, byte: u8)
    requires
        is_ascii_chars(text),
        1 <= at,
        holds_pair(text, at, byte),
    ensures
        encode_utf8(text).len() == text.len(),
        encode_utf8(text)[0] == text[0] as u8,
        hex_pair(encode_utf8(text).skip(1), at - 1) == Some(byte),
{
    is_ascii_chars_encode_utf8(text);
    lemma_hex_digit_round_trip(byte as int / 16);
    lemma_hex_digit_round_trip(byte as int % 16);
    let digits = encode_utf8(text).skip(1);
    assert(digits[at - 1] == text[at] as u8);
    assert(digits[at] == text[at + 1] as u8);
}

/// Reading what was written gives the color back: for every opaque color,
/// `from_hex` of the text that `to_hex` writes is that color, with the opacity
/// one. In particular a color whose opacity is one is read back as it is.
pub proof fn lemma_hex_round_trip(color: Color)
    requires
        color.is_opaque(),
    ensures
        hex_color(encode_utf8(color.hex_text())) == Ok::<Color, ColorError>(
            Color { red: color.red, green: color.green, blue: color.blue, alpha: ONE },
        ),
        color.alpha == ONE ==> hex_color(encode_utf8(color.hex_text())) == Ok::<Color, ColorError>(
            color,
        ),
{
    let text = color.hex_text();
    lemma_hex_text_pairs(color);
    lemma_pair_is_read(text, 1, color.red);
    lemma_pair_is_read(text, 3, color.green);
    lemma_pair_is_read(text, 5, color.blue);
}

/// Reading what was written gives the color back, for a color that is not
/// opaque too, as long as its opacity is the quotient of a byte by 255: such a
/// color is written with that byte and read back as it is.
pub proof fn lemma_hex_round_trip_with_opacity(color: Color, opacity: u8)
    requires
        color.alpha == byte_fraction(opacity),
    ensures
        hex_color(encode_utf8(color.hex_text())) == Ok::<Color, ColorError>(color),
        opacity != 255 ==> color.hex_text() == seq!['#'] + hex_pair_text(color.red)
            + hex_pair_text(color.green) + hex_pair_text(color.blue) + hex_pair_text(opacity),
{
    lemma_byte_round_trip(opacity);
    if opacity == 255 {
        lemma_hex_round_trip(color);
    } else {
        let text = color.hex_text();
        lemma_hex_text_pairs(color);
        lemma_pair_is_read(text, 1, color.red);
        lemma_pair_is_read(text, 3, color.green);
        lemma_pair_is_read(text, 5, color.blue);
        lemma_pair_is_read(text, 7, opacity);
    }
}

/// Every color that `from_hex` gives is read back from its own text: reading,
/// writing and reading again gives what the first reading gave.
pub proof fn lemma_hex_read_write_read(bytes: Seq<u8>)
    ensures
        hex_color(bytes) matches Ok(color) ==> hex_color(encode_utf8(color.hex_text())) == Ok::<
            Color,
            ColorError,
        >(color),
{
    if let Ok(color) = hex_color(bytes) {
        let digits = bytes.skip(1);
        if digits.len() == 8 {
            lemma_hex_round_trip_with_opacity(color, hex_pair(digits, 6).unwrap());
        } else {
            lemma_byte_round_trip(255);
            lemma_hex_round_trip_with_opacity(color, 255);
        }
    }
}

/// The hexadecimal notation of a color has seven characters where the color is
/// opaque and nine where it is not, and begins with `#`.
pub proof fn lemma_hex_text_length(color: Color)
    ensures
        color.is_opaque() ==> color.hex_text().len() == 7,
        !color.is_opaque() ==> color.hex_text().len() == 9,
        color.hex_text()[0] == '#',
{
}

/// The functional notation of a color begins with `rgb(` where the color is
/// opaque, and with `rgba(` where it is not; it ends with `)`.
pub proof fn lemma_rgba_text_word(color: Color)
    ensures
        color.is_opaque() ==> begins_with_rgb(color.rgba_text()) && !begins_with_rgba(
            color.rgba_text(),
        ),
        !color.is_opaque() ==> begins_with_rgba(color.rgba_text()) && !begins_with_rgb(
            color.rgba_text(),
        ),
        color.rgba_text().last() == ')',
{
    let text = color.rgba_text();
    if color.is_opaque() {
        let word = seq!['r', 'g', 'b', '('];
        assert(word =~= text.subrange(0, 4));
        assert(text[0] == text.subrange(0, 4)[0]);
        assert(text[1] == text.subrange(0, 4)[1]);
        assert(text[2] == text.subrange(0, 4)[2]);
        assert(text[3] == text.subrange(0, 4)[3]);
    } else {
        let word = seq!['r', 'g', 'b', 'a', '('];
        assert(word =~= text.subrange(0, 5));
        assert(text[0] == text.subrange(0, 5)[0]);
        assert(text[1] == text.subrange(0, 5)[1]);
        assert(text[2] == text.subrange(0, 5)[2]);
        assert(text[3] == text.subrange(0, 5)[3]);
        assert(text[4] == text.subrange(0, 5)[4]);
    }
}

/// At 0 percent the interpolation is the first color: its channels, and its
/// opacity as a number. The result is the first color bit for bit unless the
/// opacity of that color is negative zero, which comes back as zero.
pub proof fn lemma_interpolate_at_zero(from: Color, to: Color)
    requires
        !is_nan(from.alpha),
        !is_nan(to.alpha),
        from.alpha_in_range(),
        to.alpha_in_range(),
    ensures
        from.interpolated(to, ZERO).red == from.red,
        from.interpolated(to, ZERO).green == from.green,
        from.interpolated(to, ZERO).blue == from.blue,
        units(from.interpolated(to, ZERO).alpha) == units(from.alpha),
        from.alpha != SIGN_BIT ==> from.interpolated(to, ZERO) == from,
{
    let ratio = quotient(ZERO, HUNDRED);
    lemma_quotient_of_zero(HUNDRED);
    assert(ratio == ZERO);
    lemma_blend_at_zero(from.red, to.red, ratio);
    lemma_blend_at_zero(from.green, to.green, ratio);
    lemma_blend_at_zero(from.blue, to.blue, ratio);
    lemma_difference_in_unit_range(to.alpha, from.alpha);
    let gap = difference(to.alpha, from.alpha);
    lemma_product_with_zero(gap, ratio);
    lemma_sum_with_zero(from.alpha, product(gap, ratio));
}

/// At 100 percent the interpolation has the channels of the second color. Its
/// opacity is `a + (b - a)`, which is the opacity `b` of the second color
/// unless rounding the difference loses something; it is `b` where the two
/// opacities are the same.
pub proof fn lemma_interpolate_at_hundred(from: Color, to: Color)
    requires
        !is_nan(from.alpha),
        !is_nan(to.alpha),
        from.alpha_in_range(),
        to.alpha_in_range(),
    ensures
        from.interpolated(to, HUNDRED).red == to.red,
        from.interpolated(to, HUNDRED).green == to.green,
        from.interpolated(to, HUNDRED).blue == to.blue,
        from.interpolated(to, HUNDRED).alpha == clamped_to_unit(
            sum(from.alpha, difference(to.alpha, from.alpha)),
        ),
        (from.interpolated(to, HUNDRED) == to) == (clamped_to_unit(
            sum(from.alpha, difference(to.alpha, from.alpha)),
        ) == to.alpha),
        from.alpha == to.alpha && to.alpha != SIGN_BIT ==> from.interpolated(to, HUNDRED) == to,
{
    let ratio = quotient(HUNDRED, HUNDRED);
    lemma_quotient_by_itself(HUNDRED);
    assert(ratio == ONE);
    lemma_blend_at_one(from.red, to.red);
    lemma_blend_at_one(from.green, to.green);
    lemma_blend_at_one(from.blue, to.blue);
    lemma_difference_in_unit_range(to.alpha, from.alpha);
    let gap = difference(to.alpha, from.alpha);
    lemma_product_with_one(gap);
    if from.alpha == to.alpha {
        lemma_sum_with_zero(from.alpha, gap);
    }
}

/// From 0 to 100 percent the interpolation stays between the two colors: each
/// of its channels lies between that channel of the one and of the other, both
/// included.
pub proof fn lemma_interpolate_between(from: Color, to: Color, percentage: u32)
    requires
        le(ZERO, percentage),
        le(percentage, HUNDRED),
    ensures
        ({
            let between = from.interpolated(to, percentage);
            &&& from.red <= to.red ==> from.red <= between.red <= to.red
            &&& to.red <= from.red ==> to.red <= between.red <= from.red
            &&& from.green <= to.green ==> from.green <= between.green <= to.green
            &&& to.green <= from.green ==> to.green <= between.green <= from.green
            &&& from.blue <= to.blue ==> from.blue <= between.blue <= to.blue
            &&& to.blue <= from.blue ==> to.blue <= between.blue <= from.blue
        }),
{
    let ratio = quotient(percentage, HUNDRED);
    lemma_ratio_of_percentage(percentage);
    lemma_blend_between(from.red, to.red, ratio);
    lemma_blend_between(from.green, to.green, ratio);
    lemma_blend_between(from.blue, to.blue, ratio);
}

} // verus!
