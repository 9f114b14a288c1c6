//! What is written of a color in functional notation is read back as the
//! same color.
use crate::binary32::{
    is_nan, is_negative, lemma_scaled_constants, magnitude, MAX_CHANNEL, ONE, one_unit, units,
    ZERO,
};
use crate::binary32::arithmetic::byte_number;
use crate::binary32::decimal::{number_of, power_of_ten};
use crate::binary32::laws::lemma_byte_number;
use crate::binary32::round_trip::{
    lemma_digits_text, lemma_reads_digits, lemma_written_is_read, sign_text,
};
use crate::binary32::writing::{
    all_decimal, decimal_expansion, digits_text, expansion_number, lemma_expansion_spells,
    number_text, positional, shortest_decimal,
};
use crate::color::{
    channel_of, Color, color_of, functional_arguments, lemma_rgba_text_word, opacity_of,
    rgba_color,
};
use crate::error::ColorError;
use crate::utils::format::decimal_text;
use crate::utils::parse::validated;
use crate::utils::text::{
    is_white_space, lemma_first_index, lemma_leading_white_space, lemma_trailing_white_space,
    split_on, trimmed,
};
use vstd::arithmetic::power2::*;
use vstd::prelude::*;
use vstd::string::*;

verus! {

/// Whether the text holds neither a comma nor white space.
pub open spec fn is_plain(text: Seq<char>) -> bool {
    forall|i: int| 0 <= i < text.len() ==> (#[trigger] text[i]) != ',' && !is_white_space(text[i])
}

/// A text without white space at its ends is trimmed already.
pub proof fn lemma_trimmed_already(text: Seq<char>)
    requires
        text.len() == 0 || (!is_white_space(text[0]) && !is_white_space(text.last())),
    ensures
        trimmed(text) == text,
{
    lemma_leading_white_space(text, 0);
    assert(text.skip(0) =~= text);
    lemma_trailing_white_space(text, 0);
    assert(text.take(text.len() as int) =~= text);
}

/// A space before a text without white space at its ends is trimmed off.
pub proof fn lemma_trimmed_of_space(text: Seq<char>)
    requires
        text.len() >= 1,
        !is_white_space(text[0]),
        !is_white_space(text.last()),
    ensures
        trimmed(seq![' '] + text) == text,
{
    let spaced = seq![' '] + text;
    assert(is_white_space(' '));
    assert(spaced[0] == ' ');
    assert(spaced[1] == text[0]);
    lemma_leading_white_space(spaced, 1);
    assert(spaced.skip(1) =~= text);
    lemma_trailing_white_space(text, 0);
    assert(text.take(text.len() as int) =~= text);
}

/// A text without a comma is one piece.
pub proof fn lemma_split_none(text: Seq<char>)
    requires
        forall|i: int| 0 <= i < text.len() ==> #[trigger] text[i] != ',',
    ensures
        split_on(text, ',') == seq![text],
{
    lemma_first_index(text, ',', text.len() as int);
}

/// A text without a comma, before a comma, is the first piece.
pub proof fn lemma_split_first(first: Seq<char>, rest: Seq<char>)
    requires
        forall|i: int| 0 <= i < first.len() ==> #[trigger] first[i] != ',',
    ensures
        split_on(first + seq![','] + rest, ',') == seq![first] + split_on(rest, ','),
{
    let text = first + seq![','] + rest;
    assert forall|k: int| 0 <= k < first.len() implies #[trigger] text[k] != ',' by {
        assert(text[k] == first[k]);
    }
    assert(text[first.len() as int] == ',');
    lemma_first_index(text, ',', first.len() as int);
    assert(text.take(first.len() as int) =~= first);
    assert(text.skip(first.len() as int + 1) =~= rest);
}

/// The digits of a byte, as they are written.
pub open spec fn byte_digits(byte: u8) -> Seq<u8> {
    if byte < 10 {
        seq![byte]
    } else if byte < 100 {
        seq![byte / 10, byte % 10]
    } else {
        seq![byte / 100, (byte / 10) % 10, byte % 10]
    }
}

/// A byte is written in decimal digits that spell it.
pub proof fn lemma_decimal_text(byte: u8)
    ensures
        decimal_text(byte) == digits_text(byte_digits(byte)),
        all_decimal(byte_digits(byte)),
        byte_digits(byte).len() >= 1,
        expansion_number(byte_digits(byte)) == byte,
        is_plain(decimal_text(byte)),
        decimal_text(byte).len() >= 1,
{
    let digits = byte_digits(byte);
    assert(decimal_text(byte) =~= digits_text(digits));
    lemma_digits_text(digits);
    assert(is_plain(decimal_text(byte))) by {
        assert forall|i: int| 0 <= i < decimal_text(byte).len() implies (
        #[trigger] decimal_text(byte)[i]) != ',' && !is_white_space(decimal_text(byte)[i]) by {
            assert(decimal_text(byte)[i] == digits_text(digits)[i]);
        }
    }
    if byte < 10 {
        assert(digits.drop_last().len() == 0);
        assert(expansion_number(digits.drop_last()) == 0);
    } else if byte < 100 {
        let front = digits.drop_last();
        assert(front =~= seq![byte / 10]);
        assert(front.drop_last().len() == 0);
        assert(expansion_number(front.drop_last()) == 0);
        assert(expansion_number(front) == byte / 10);
    } else {
        let front = digits.drop_last();
        assert(front =~= seq![byte / 100, (byte / 10) % 10]);
        let first = front.drop_last();
        assert(first =~= seq![byte / 100]);
        assert(first.drop_last().len() == 0);
        assert(expansion_number(first.drop_last()) == 0);
        assert(expansion_number(first) == byte / 100);
        assert(expansion_number(front) == 10 * (byte / 100) + (byte / 10) % 10);
    }
}

/// A byte that is written is read back as its channel, with a space before it
/// or without.
pub proof fn lemma_channel_is_read(byte: u8)
    ensures
        channel_of(decimal_text(byte)) == Some(byte),
        channel_of(seq![' '] + decimal_text(byte)) == Some(byte),
{
    let text = decimal_text(byte);
    let digits = byte_digits(byte);
    lemma_decimal_text(byte);
    lemma_digits_text(digits);
    assert(!is_white_space(text[0]) && !is_white_space(text.last()));
    lemma_trimmed_already(text);
    lemma_trimmed_of_space(text);
    lemma_reads_digits(false, digits);
    assert(sign_text(false) + digits_text(digits) =~= text);
    assert(power_of_ten(0) == 1);
    assert(byte * power_of_ten(0) * pow2(149) == byte * pow2(149)) by (nonlinear_arith)
        requires
            power_of_ten(0) == 1,
    ;
    lemma_byte_number(byte);
    lemma_byte_number(255);
    crate::binary32::rounding::lemma_whole_number(byte as int);
    assert(number_of(text) == Some(byte_number(byte)));
    lemma_scaled_constants();
    lemma_pow2_pos(149);
    assert(0 <= byte * pow2(149) <= 255 * pow2(149)) by (nonlinear_arith)
        requires
            0 <= byte <= 255,
            0 < pow2(149),
    ;
    assert(validated(text, ZERO, MAX_CHANNEL) == Ok::<u32, ColorError>(byte_number(byte)));
}

/// The characters of digits are neither commas nor white space.
proof fn lemma_digits_plain(digits: Seq<u8>)
    requires
        all_decimal(digits),
    ensures
        is_plain(digits_text(digits)),
{
    lemma_digits_text(digits);
}

/// A number is written without a comma and without white space.
pub proof fn lemma_number_text_plain(bits: u32)
    ensures
        is_plain(number_text(bits)),
        number_text(bits).len() >= 1,
{
    let text = number_text(bits);
    if !is_nan(bits) {
        let negative = is_negative(bits);
        let size = magnitude(bits);
        if size != 0x7F80_0000 && size != 0 {
            let found = shortest_decimal(size);
            let digits = decimal_expansion(found.0);
            crate::binary32::round_trip::lemma_shortest_is_read(size);
            lemma_expansion_spells(found.0);
            lemma_digits_plain(digits);
            let body = positional(digits, found.1);
            lemma_digits_text(digits);
            assert(is_plain(body) && body.len() >= 1) by {
                let written = digits_text(digits);
                assert forall|i: int| 0 <= i < body.len() implies (#[trigger] body[i]) != ','
                    && !is_white_space(body[i]) by {
                    if found.1 >= 0 {
                        if i < written.len() {
                            assert(body[i] == written[i]);
                        } else {
                            assert(body[i] == '0');
                        }
                    } else if written.len() > -found.1 {
                        let at = written.len() + found.1;
                        if i < at {
                            assert(body[i] == written[i]);
                        } else if i == at {
                            assert(body[i] == '.');
                        } else {
                            assert(body[i] == written[i - 1]);
                        }
                    } else {
                        let gap = -found.1 - written.len();
                        if i == 0 {
                            assert(body[i] == '0');
                        } else if i == 1 {
                            assert(body[i] == '.');
                        } else if i < 2 + gap {
                            assert(body[i] == '0');
                        } else {
                            assert(body[i] == written[i - 2 - gap]);
                        }
                    }
                }
            }
            assert(text == sign_text(negative) + body);
            assert forall|i: int| 0 <= i < text.len() implies (#[trigger] text[i]) != ','
                && !is_white_space(text[i]) by {
                if negative {
                    if i == 0 {
                        assert(text[i] == '-');
                    } else {
                        assert(text[i] == body[i - 1]);
                    }
                } else {
                    assert(text[i] == body[i]);
                }
            }
        }
    }
}

/// An opacity from zero to one that is written is read back as it is, with a
/// space before it.
pub proof fn lemma_opacity_is_read(alpha: u32)
    requires
        !is_nan(alpha),
        0 <= units(alpha) <= one_unit(),
    ensures
        validated(seq![' '] + number_text(alpha), ZERO, ONE) == Ok::<u32, ColorError>(alpha),
{
    let text = number_text(alpha);
    lemma_number_text_plain(alpha);
    assert(!is_white_space(text[0]) && !is_white_space(text.last()));
    lemma_trimmed_of_space(text);
    lemma_written_is_read(alpha);
    lemma_scaled_constants();
}
/// What stands between the brackets of the functional notation of a color.
pub open spec fn arguments_text(color: Color) -> Seq<char> {
    let channels = decimal_text(color.red) + seq![',', ' '] + decimal_text(color.green) + seq![
        ',',
        ' ',
    ] + decimal_text(color.blue);
    if color.is_opaque() {
        channels
    } else {
        channels + seq![',', ' '] + number_text(color.alpha)
    }
}

/// The components of the functional notation of a color, as they stand between
/// the commas.
pub open spec fn components_text(color: Color) -> Seq<Seq<char>> {
    let channels = seq![
        decimal_text(color.red),
        seq![' '] + decimal_text(color.green),
        seq![' '] + decimal_text(color.blue),
    ];
    if color.is_opaque() {
        channels
    } else {
        channels.push(seq![' '] + number_text(color.alpha))
    }
}

/// The functional notation of a color is trimmed, and between its brackets
/// stand its components.
pub proof fn lemma_arguments_of_text(color: Color)
    ensures
        functional_arguments(trimmed(color.rgba_text())) == Some(arguments_text(color)),
{
    let text = color.rgba_text();
    lemma_rgba_text_word(color);
    assert(text[0] == 'r');
    assert(!is_white_space('r') && !is_white_space(')'));
    lemma_trimmed_already(text);
    if color.is_opaque() {
        assert(text.subrange(4, text.len() - 1) =~= arguments_text(color));
    } else {
        assert(text.subrange(5, text.len() - 1) =~= arguments_text(color));
    }
}

/// A text without a comma has none after a space either.
proof fn lemma_spaced_has_no_comma(text: Seq<char>)
    requires
        is_plain(text),
    ensures
        forall|i: int| 0 <= i < text.len() ==> #[trigger] text[i] != ',',
        forall|i: int|
            0 <= i < (seq![' '] + text).len() ==> (#[trigger] (seq![' '] + text)[i]) != ',',
{
    assert forall|i: int| 0 <= i < (seq![' '] + text).len() implies (#[trigger] (seq![' ']
        + text)[i]) != ',' by {
        if i > 0 {
            assert((seq![' '] + text)[i] == text[i - 1]);
        }
    }
}

/// Whether the text holds no comma.
pub open spec fn has_no_comma(text: Seq<char>) -> bool {
    forall|i: int| 0 <= i < text.len() ==> #[trigger] text[i] != ','
}

/// A plain text has no comma, after a space or without.
proof fn lemma_no_comma(text: Seq<char>)
    requires
        is_plain(text),
    ensures
        has_no_comma(text),
        has_no_comma(seq![' '] + text),
{
    lemma_spaced_has_no_comma(text);
}

/// Three texts without commas, with commas between them, are three pieces.
proof fn lemma_split_three(first: Seq<char>, second: Seq<char>, third: Seq<char>)
    requires
        has_no_comma(first),
        has_no_comma(second),
        has_no_comma(third),
    ensures
        split_on(first + seq![','] + second + seq![','] + third, ',') == seq![first, second, third],
{
    let rest = second + seq![','] + third;
    assert(first + seq![','] + second + seq![','] + third =~= first + seq![','] + rest);
    lemma_split_first(first, rest);
    lemma_split_first(second, third);
    lemma_split_none(third);
    assert(seq![first, second, third] =~= seq![first] + (seq![second] + seq![third]));
}

/// Four texts without commas, with commas between them, are four pieces.
proof fn lemma_split_four(
    first: Seq<char>,
    second: Seq<char>,
    third: Seq<char>,
    fourth: Seq<char>,
)
    requires
        has_no_comma(first),
        has_no_comma(second),
        has_no_comma(third),
        has_no_comma(fourth),
    ensures
        split_on(first + seq![','] + second + seq![','] + third + seq![','] + fourth, ',') == seq![
            first,
            second,
            third,
            fourth,
        ],
{
    let rest = second + seq![','] + third + seq![','] + fourth;
    assert(first + seq![','] + second + seq![','] + third + seq![','] + fourth =~= first + seq![
        ',',
    ] + rest);
    lemma_split_first(first, rest);
    lemma_split_three(second, third, fourth);
    assert(seq![first, second, third, fourth] =~= seq![first] + seq![second, third, fourth]);
}

/// Texts joined by a comma and a space are texts joined by a comma, each but
/// the first after a space.
proof fn lemma_joined(
    first: Seq<char>,
    second: Seq<char>,
    third: Seq<char>,
    fourth: Seq<char>,
)
    ensures
        first + seq![',', ' '] + second + seq![',', ' '] + third == first + seq![','] + (seq![' ']
            + second) + seq![','] + (seq![' '] + third),
        first + seq![',', ' '] + second + seq![',', ' '] + third + seq![',', ' '] + fourth == first
            + seq![','] + (seq![' '] + second) + seq![','] + (seq![' '] + third) + seq![','] + (
        seq![' '] + fourth),
{
    assert(first + seq![',', ' '] + second + seq![',', ' '] + third =~= first + seq![','] + (
    seq![' '] + second) + seq![','] + (seq![' '] + third));
    assert(first + seq![',', ' '] + second + seq![',', ' '] + third + seq![',', ' '] + fourth
        =~= first + seq![','] + (seq![' '] + second) + seq![','] + (seq![' '] + third) + seq![',']
        + (seq![' '] + fourth));
}

/// What stands between the brackets falls apart at its commas into the
/// components of the color.
pub proof fn lemma_components_of_text(color: Color)
    ensures
        split_on(arguments_text(color), ',') == components_text(color),
{
    let red = decimal_text(color.red);
    let green = decimal_text(color.green);
    let blue = decimal_text(color.blue);
    let alpha = number_text(color.alpha);
    lemma_decimal_text(color.red);
    lemma_decimal_text(color.green);
    lemma_decimal_text(color.blue);
    lemma_number_text_plain(color.alpha);
    lemma_no_comma(red);
    lemma_no_comma(green);
    lemma_no_comma(blue);
    lemma_no_comma(alpha);
    lemma_joined(red, green, blue, alpha);
    if color.is_opaque() {
        lemma_split_three(red, seq![' '] + green, seq![' '] + blue);
    } else {
        lemma_split_four(red, seq![' '] + green, seq![' '] + blue, seq![' '] + alpha);
        assert(components_text(color) =~= seq![
            red,
            seq![' '] + green,
            seq![' '] + blue,
            seq![' '] + alpha,
        ]);
    }
}

/// Reading what was written gives the color back, in functional notation
/// too: for every color whose opacity is a number from zero to one,
/// `from_rgba` of the text that `to_rgba` writes is that color, with the
/// opacity one where the color counts as opaque.
pub proof fn lemma_rgba_round_trip(color: Color)
    requires
        !is_nan(color.alpha),
        color.alpha_in_range(),
    ensures
        rgba_color(color.rgba_text()) == Ok::<Color, ColorError>(
            Color {
                red: color.red,
                green: color.green,
                blue: color.blue,
                alpha: if color.is_opaque() {
                    ONE
                } else {
                    color.alpha
                },
            },
        ),
        color.alpha == ONE || !color.is_opaque() ==> rgba_color(color.rgba_text()) == Ok::<
            Color,
            ColorError,
        >(color),
{
    let components = components_text(color);
    lemma_arguments_of_text(color);
    lemma_components_of_text(color);
    lemma_channel_is_read(color.red);
    lemma_channel_is_read(color.green);
    lemma_channel_is_read(color.blue);
    assert(components[0] == decimal_text(color.red));
    assert(components[1] == seq![' '] + decimal_text(color.green));
    assert(components[2] == seq![' '] + decimal_text(color.blue));
    if !color.is_opaque() {
        lemma_opacity_is_read(color.alpha);
        assert(components[3] == seq![' '] + number_text(color.alpha));
        assert(opacity_of(components) == Some(color.alpha));
    } else {
        assert(opacity_of(components) == Some(ONE));
    }
}

/// Reading what was written gives the color back, whichever notation was
/// written and without being told which: `try_from` of the text that `to_hex`
/// writes of a color whose opacity is one is that color, and so is `try_from`
/// of the text that `to_rgba` writes of a color whose opacity is one, or a
/// number from zero to one that does not count as opaque.
pub proof fn lemma_parse_round_trip(color: Color, text: &str)
    requires
        !is_nan(color.alpha),
        color.alpha_in_range(),
        color.alpha == ONE || !color.is_opaque(),
        text@ == color.rgba_text() || (text@ == color.hex_text() && color.alpha == ONE),
    ensures
        color_of(text) == Ok::<Color, ColorError>(color),
{
    let bytes = text.spec_bytes();
    if text@ == color.rgba_text() {
        lemma_rgba_round_trip(color);
        lemma_rgba_text_word(color);
        // the first byte is that of `r`
        assert(text@[0] == 'r');
        assert((0x72u32 & 0x7F) as u8 == 0x72u8) by (bit_vector);
        assert(bytes =~= vstd::utf8::encode_scalar('r' as u32) + vstd::utf8::encode_utf8(
            text@.drop_first(),
        ));
        assert(bytes[0] == 0x72u8);
    } else {
        lemma_scaled_constants();
        lemma_pow2_pos(126);
        crate::color::lemma_hex_round_trip(color);
        crate::color::lemma_hex_text_length(color);
        let written = color.hex_text();
        assert(written[0] == '#');
        crate::color::lemma_hex_text_is_ascii(color);
        vstd::utf8::is_ascii_chars_encode_utf8(written);
    }
}


} // verus!
