use rustint::utils::parse::{parse_and_validate_rgba, parse_hex, parse_rgb_from_hex};
use rustint::ColorError;

#[test]
fn test_parse_hex_valid() {
    assert_eq!(parse_hex("00"), Ok(0));
    assert_eq!(parse_hex("FF"), Ok(255));
    assert_eq!(parse_hex("80"), Ok(128));
    assert_eq!(parse_hex("0A"), Ok(10));
}

#[test]
fn test_parse_hex_invalid() {
    assert!(matches!(parse_hex(""), Err(ColorError::InvalidColorFormat)));
    assert!(matches!(
        parse_hex("G0"),
        Err(ColorError::InvalidColorFormat)
    ));
    assert!(matches!(
        parse_hex("FFF"),
        Err(ColorError::InvalidColorFormat)
    ));
    assert!(matches!(
        parse_hex("-1"),
        Err(ColorError::InvalidColorFormat)
    ));
    assert!(matches!(
        parse_hex("100"),
        Err(ColorError::InvalidColorFormat)
    ));
}

#[test]
fn test_parse_rgb_from_hex_valid() {
    assert_eq!(parse_rgb_from_hex("000000"), Ok((0, 0, 0)));
    assert_eq!(parse_rgb_from_hex("FFFFFF"), Ok((255, 255, 255)));
    assert_eq!(parse_rgb_from_hex("FF8000"), Ok((255, 128, 0)));
    assert_eq!(parse_rgb_from_hex("0A1B2C"), Ok((10, 27, 44)));
}

#[test]
fn test_parse_rgb_from_hex_invalid() {
    assert!(matches!(
        parse_rgb_from_hex(""),
        Err(ColorError::InvalidColorFormat)
    ));
    assert!(matches!(
        parse_rgb_from_hex("12345"),
        Err(ColorError::InvalidColorFormat)
    ));
    assert!(matches!(
        parse_rgb_from_hex("1234567"),
        Err(ColorError::InvalidColorFormat)
    ));
    assert!(matches!(
        parse_rgb_from_hex("GGGGGG"),
        Err(ColorError::InvalidColorFormat)
    ));
    assert!(matches!(
        parse_rgb_from_hex("00FFFF0"),
        Err(ColorError::InvalidColorFormat)
    ));
    assert!(matches!(
        parse_rgb_from_hex("00FFFF00F"),
        Err(ColorError::InvalidColorFormat)
    ));
}

#[test]
fn test_parse_rgb_from_hex_mixed_case() {
    assert_eq!(parse_rgb_from_hex("aAbBcC"), Ok((170, 187, 204)));
}

#[test]
fn test_parse_rgb_from_hex_boundary() {
    assert_eq!(parse_rgb_from_hex("000001"), Ok((0, 0, 1)));
    assert_eq!(parse_rgb_from_hex("FFFFFE"), Ok((255, 255, 254)));
}

#[test]
fn parse_hex_takes_one_digit_and_leading_zeros() {
    assert_eq!(parse_hex("f"), Ok(15));
    assert_eq!(parse_hex("0"), Ok(0));
    assert_eq!(parse_hex("000FF"), Ok(255));
    assert_eq!(parse_hex("00000000000000000000000000000000007f"), Ok(127));
}

#[test]
fn parse_hex_refuses_what_is_no_digit() {
    for text in ["+F", " F", "F ", "0x1", "1_0", "é", "F\u{0}", "g"] {
        assert_eq!(parse_hex(text), Err(ColorError::InvalidColorFormat), "{text:?}");
    }
}

#[test]
fn parse_hex_refuses_numbers_above_one_byte() {
    assert_eq!(parse_hex("0100"), Err(ColorError::InvalidColorFormat));
    assert_eq!(
        parse_hex("FFFFFFFFFFFFFFFFFFFFFFFFFFFFFFFFFFFF"),
        Err(ColorError::InvalidColorFormat)
    );
    // a digit that is none counts also where the number is already too large
    assert_eq!(parse_hex("FFFZ"), Err(ColorError::InvalidColorFormat));
}

#[test]
fn parse_hex_agrees_with_every_two_digit_text() {
    for value in 0..=255u32 {
        assert_eq!(parse_hex(&format!("{value:02X}")), Ok(value as u8));
        assert_eq!(parse_hex(&format!("{value:02x}")), Ok(value as u8));
        assert_eq!(parse_hex(&format!("{value:x}")), Ok(value as u8));
    }
}

#[test]
fn parse_rgb_from_hex_reads_the_channels_of_the_long_notation() {
    assert_eq!(parse_rgb_from_hex("FF8040CC"), Ok((255, 128, 64)));
    // the opacity is not this function's to judge
    assert_eq!(parse_rgb_from_hex("FF8040ZZ"), Ok((255, 128, 64)));
    assert_eq!(
        parse_rgb_from_hex("FF80ZZCC"),
        Err(ColorError::InvalidColorFormat)
    );
    assert_eq!(
        parse_rgb_from_hex("ééé"),
        Err(ColorError::InvalidColorFormat)
    );
    assert_eq!(
        parse_rgb_from_hex("+F+F+F"),
        Err(ColorError::InvalidColorFormat)
    );
}

#[test]
fn validation_keeps_numbers_within_the_range() {
    let zero = 0.0f32.to_bits();
    let one = 1.0f32.to_bits();
    let most = 255.0f32.to_bits();
    for text in ["0", "0.5", "1", "254.99", "255", "-0", " 17 ", "\t2.5e1\n", "+3", "255.000001"] {
        let value: f32 = text.trim().parse().unwrap();
        assert_eq!(
            parse_and_validate_rgba(text, zero, most),
            Ok(value.to_bits()),
            "{text:?}"
        );
    }
    for text in ["0", "1e-40", "0.5", "1", "1.00000001", ".25"] {
        let value: f32 = text.parse().unwrap();
        assert_eq!(
            parse_and_validate_rgba(text, zero, one),
            Ok(value.to_bits()),
            "{text:?}"
        );
    }
}

#[test]
fn validation_refuses_numbers_outside_the_range() {
    let zero = 0.0f32.to_bits();
    let one = 1.0f32.to_bits();
    let most = 255.0f32.to_bits();
    for text in [
        "-1", "-1e-45", "255.00002", "256", "inf", "-inf", "nan", "1e39", "-0.0000001",
    ] {
        assert_eq!(
            parse_and_validate_rgba(text, zero, most),
            Err(ColorError::InvalidColorFormat),
            "{text:?}"
        );
    }
    assert_eq!(
        parse_and_validate_rgba("1.0000001", zero, one),
        Err(ColorError::InvalidColorFormat)
    );
    // a range whose bound is no number holds nothing
    assert_eq!(
        parse_and_validate_rgba("1", zero, f32::NAN.to_bits()),
        Err(ColorError::InvalidColorFormat)
    );
}

#[test]
fn validation_refuses_what_is_no_number() {
    let zero = 0.0f32.to_bits();
    let most = 255.0f32.to_bits();
    for text in ["", " ", "a", "1 2", "1,2", "0x10", "1e", "--1", "1_0", "12px", "50%", "."] {
        assert_eq!(
            parse_and_validate_rgba(text, zero, most),
            Err(ColorError::InvalidColorFormat),
            "{text:?}"
        );
    }
}

#[test]
fn validation_orders_numbers_as_the_hardware_does() {
    let samples: Vec<f32> = vec![
        f32::NEG_INFINITY,
        f32::MIN,
        -255.0,
        -1.0,
        -f32::MIN_POSITIVE,
        -1.0e-45,
        -0.0,
        0.0,
        1.0e-45,
        f32::MIN_POSITIVE,
        0.5,
        1.0,
        1.0000001,
        255.0,
        f32::MAX,
        f32::INFINITY,
        f32::NAN,
    ];
    for &min in &samples {
        for &max in &samples {
            for &value in &samples {
                let expected = if min <= value && value <= max {
                    Ok(value.to_bits())
                } else {
                    Err(ColorError::InvalidColorFormat)
                };
                assert_eq!(
                    parse_and_validate_rgba(&format!("{value:e}"), min.to_bits(), max.to_bits()),
                    expected,
                    "{min} <= {value} <= {max}"
                );
            }
        }
    }
}
