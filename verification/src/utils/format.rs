//! Writing bytes as hexadecimal and as decimal digits.
use vstd::prelude::*;
use vstd::string::*;

verus! {

/// The decimal digit, `0` to `9`, of a value below ten.
pub open spec fn decimal_digit(value: int) -> char {
    ((0x30 + value) as u8) as char
}

/// The hexadecimal digit, `0` to `9` and `A` to `F`, of a value below sixteen.
pub open spec fn upper_hex_digit(value: int) -> char {
    if value < 10 {
        ((0x30 + value) as u8) as char
    } else {
        ((0x41 + value - 10) as u8) as char
    }
}

/// The two upper-case hexadecimal digits of a byte.
pub open spec fn hex_pair_text(byte: u8) -> Seq<char> {
    seq![upper_hex_digit(byte as int / 16), upper_hex_digit(byte as int % 16)]
}

/// The decimal digits of a byte, without leading zeros.
pub open spec fn decimal_text(byte: u8) -> Seq<char> {
    if byte < 10 {
        seq![decimal_digit(byte as int)]
    } else if byte < 100 {
        seq![decimal_digit(byte as int / 10), decimal_digit(byte as int % 10)]
    } else {
        seq![
            decimal_digit(byte as int / 100),
            decimal_digit(byte as int / 10 % 10),
            decimal_digit(byte as int % 10),
        ]
    }
}

/// The text of one hexadecimal digit.
pub fn hex_digit_text(value: u8) -> (text: &'static str)
    requires
        value < 16,
    ensures
        text@ == seq![upper_hex_digit(value as int)],
{
    proof {
        reveal_strlit("0");
        reveal_strlit("1");
        reveal_strlit("2");
        reveal_strlit("3");
        reveal_strlit("4");
        reveal_strlit("5");
        reveal_strlit("6");
        reveal_strlit("7");
        reveal_strlit("8");
        reveal_strlit("9");
        reveal_strlit("A");
        reveal_strlit("B");
        reveal_strlit("C");
        reveal_strlit("D");
        reveal_strlit("E");
        reveal_strlit("F");
    }
    let text = if value == 0 {
        "0"
    } else if value == 1 {
        "1"
    } else if value == 2 {
        "2"
    } else if value == 3 {
        "3"
    } else if value == 4 {
        "4"
    } else if value == 5 {
        "5"
    } else if value == 6 {
        "6"
    } else if value == 7 {
        "7"
    } else if value == 8 {
        "8"
    } else if value == 9 {
        "9"
    } else if value == 10 {
        "A"
    } else if value == 11 {
        "B"
    } else if value == 12 {
        "C"
    } else if value == 13 {
        "D"
    } else if value == 14 {
        "E"
    } else {
        "F"
    };
    assert(text@ =~= seq![upper_hex_digit(value as int)]);
    text
}

/// Appends the two upper-case hexadecimal digits of a byte.
pub fn push_hex_pair(text: &mut String, byte: u8)
    ensures
        final(text)@ == old(text)@ + hex_pair_text(byte),
{
    text.append(hex_digit_text(byte / 16));
    text.append(hex_digit_text(byte % 16));
    assert(text@ =~= old(text)@ + hex_pair_text(byte));
}

/// Appends the decimal digits of a byte.
pub fn push_decimal(text: &mut String, byte: u8)
    ensures
        final(text)@ == old(text)@ + decimal_text(byte),
{
    if byte >= 100 {
        text.append(hex_digit_text(byte / 100));
    }
    if byte >= 10 {
        text.append(hex_digit_text(byte / 10 % 10));
    }
    text.append(hex_digit_text(byte % 10));
    assert(text@ =~= old(text)@ + decimal_text(byte));
}

} // verus!
