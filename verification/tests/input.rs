use rustint::binary32::ONE;
use rustint::{Color, ColorError};

/// Reads a color from either notation.
fn parse(text: &str) -> Result<Color, ColorError> {
    Color::try_from(text)
}

fn alpha(color: &Color) -> f32 {
    f32::from_bits(color.alpha)
}

#[test]
fn test_from_new() {
    let color = Color::new(255, 128, 64);
    assert_eq!(color.red, 255);
    assert_eq!(color.green, 128);
    assert_eq!(color.blue, 64);
    assert_eq!(alpha(&color), 1.0);
}

#[test]
fn test_from_hex_valid() {
    let color = Color::try_from("#FF8040").unwrap();
    assert_eq!(color.red, 255);
    assert_eq!(color.green, 128);
    assert_eq!(color.blue, 64);
    assert_eq!(alpha(&color), 1.0);
}

#[test]
fn test_from_hex_valid_short() {
    let color = Color::try_from("#F80").unwrap();
    assert_eq!(color.red, 255);
    assert_eq!(color.green, 136);
    assert_eq!(color.blue, 0);

    let color = Color::try_from("#f80").unwrap();
    assert_eq!(color.red, 255);
    assert_eq!(color.green, 136);
    assert_eq!(color.blue, 0);
}

#[test]
fn test_from_hex_with_alpha() {
    let color = Color::try_from("#FF8040FF").unwrap();
    assert_eq!(color.red, 255);
    assert_eq!(color.green, 128);
    assert_eq!(color.blue, 64);
    assert_eq!(alpha(&color), 1.0);

    let color = Color::try_from("#FF8040CC").unwrap();
    assert_eq!(color.red, 255);
    assert_eq!(color.green, 128);
    assert_eq!(color.blue, 64);
    assert_eq!(alpha(&color), 0.8);
}

#[test]
fn test_try_from_hex_invalid() {
    assert!(Color::try_from("FF8040").is_err());
    assert!(Color::try_from("#FF804").is_err());
    assert!(Color::try_from("#FF80ZZ").is_err());
    assert!(Color::try_from("FF8040CC").is_err());
    assert!(Color::try_from("#FF8040C").is_err());
    assert!(Color::try_from("FF8040ZZ").is_err());
    assert!(Color::try_from("#F8Z").is_err());
    assert!(Color::try_from("F8Z").is_err());
}

#[test]
fn test_from_rgb_valid() {
    let color = Color::try_from("rgb(255, 128, 64)").unwrap();
    assert_eq!(color.red, 255);
    assert_eq!(color.green, 128);
    assert_eq!(color.blue, 64);
    assert_eq!(alpha(&color), 1.0);

    let color = Color::try_from("rgb(255,128, 64)").unwrap();
    assert_eq!(color.red, 255);
    assert_eq!(color.green, 128);
    assert_eq!(color.blue, 64);
    assert_eq!(alpha(&color), 1.0);

    let color = Color::try_from("rgb(255,128,64)").unwrap();
    assert_eq!(color.red, 255);
    assert_eq!(color.green, 128);
    assert_eq!(color.blue, 64);
    assert_eq!(alpha(&color), 1.0);
}

#[test]
fn test_from_rgba_valid() {
    let color = Color::try_from("rgba(255, 128, 64, 0.5)").unwrap();
    assert_eq!(color.red, 255);
    assert_eq!(color.green, 128);
    assert_eq!(color.blue, 64);
    assert_eq!(alpha(&color), 0.5);

    let color = Color::try_from("rgba(255,128, 64, 0.5)").unwrap();
    assert_eq!(color.red, 255);
    assert_eq!(color.green, 128);
    assert_eq!(color.blue, 64);
    assert_eq!(alpha(&color), 0.5);

    let color = Color::try_from("rgba(255, 128, 64,0.5)").unwrap();
    assert_eq!(color.red, 255);
    assert_eq!(color.green, 128);
    assert_eq!(color.blue, 64);
    assert_eq!(alpha(&color), 0.5);

    let color = Color::try_from("rgba(255,128,64,0.5)").unwrap();
    assert_eq!(color.red, 255);
    assert_eq!(color.green, 128);
    assert_eq!(color.blue, 64);
    assert_eq!(alpha(&color), 0.5);
}

#[test]
fn test_from_rgb_invalid() {
    assert!(Color::try_from("rgba(256, 255, 255, 0.5)").is_err());
    assert!(Color::try_from("rgba(-1, 255, 255, 0.5)").is_err());
    assert!(Color::try_from("rgba(255, 128, 64, -1)").is_err());
    assert!(Color::try_from("rgba(a, 128, 64, 0.5)").is_err());
    assert!(Color::try_from("rgb(255, 128)").is_err());
}

#[test]
fn with_alpha_brings_the_opacity_into_the_range() {
    let color = Color::with_alpha(1, 2, 3, 0.25f32.to_bits());
    assert_eq!((color.red, color.green, color.blue), (1, 2, 3));
    assert_eq!(alpha(&color), 0.25);
    assert_eq!(alpha(&Color::with_alpha(1, 2, 3, 1.5f32.to_bits())), 1.0);
    assert_eq!(alpha(&Color::with_alpha(1, 2, 3, (-0.5f32).to_bits())), 0.0);
    assert_eq!(
        alpha(&Color::with_alpha(1, 2, 3, f32::INFINITY.to_bits())),
        1.0
    );
    assert_eq!(alpha(&Color::with_alpha(1, 2, 3, 0.0f32.to_bits())), 0.0);
    assert_eq!(alpha(&Color::with_alpha(1, 2, 3, 1.0f32.to_bits())), 1.0);
    assert!(alpha(&Color::with_alpha(1, 2, 3, f32::NAN.to_bits())).is_nan());
}

#[test]
fn the_notation_is_told_by_the_first_character() {
    // with `#` in front a text is hexadecimal notation and nothing else
    assert_eq!(parse("#rgb(1,2,3)"), Err(ColorError::InvalidFormat));
    assert_eq!(parse("#"), Err(ColorError::InvalidFormat));
    assert_eq!(parse("#FF8040"), Color::from_hex("#FF8040"));
    // without it a text is functional notation, white space in front or not
    assert_eq!(parse(" #FF8040"), Err(ColorError::InvalidFormat));
    assert_eq!(parse("FF8040"), Err(ColorError::InvalidFormat));
    assert_eq!(parse(""), Err(ColorError::InvalidFormat));
    assert_eq!(parse(" rgb(1,2,3)"), Color::from_rgba("rgb(1,2,3)"));
    assert_eq!(Color::from_rgba("#FF8040"), Err(ColorError::InvalidFormat));
    assert_eq!(Color::from_hex("rgb(1,2,3)"), Err(ColorError::InvalidFormat));
}

#[test]
fn short_hex_stands_for_the_doubled_digits() {
    assert_eq!(parse("#F80"), parse("#FF8800"));
    assert_eq!(parse("#F80"), Ok(Color::new(255, 136, 0)));
    assert_eq!(parse("#abc"), parse("#AABBCC"));
    assert_eq!(parse("#000"), Ok(Color::new(0, 0, 0)));
    assert_eq!(parse("#fff"), Ok(Color::new(255, 255, 255)));
    for digit in 0..16u8 {
        let text = format!("#{digit:x}{digit:X}{digit:x}");
        assert_eq!(
            Color::from_hex(&text),
            Ok(Color::new(17 * digit, 17 * digit, 17 * digit))
        );
    }
}

#[test]
fn the_opacity_of_a_long_hex_is_its_byte_over_255() {
    assert_eq!(alpha(&parse("#FF8040FF").unwrap()), 1.0);
    let opacity = alpha(&parse("#FF8040CC").unwrap());
    assert!((opacity - 0.8).abs() <= 1.0 / 255.0);
    assert_eq!(alpha(&parse("#00000000").unwrap()), 0.0);
    assert_eq!(alpha(&parse("#00000080").unwrap()), 128.0 / 255.0);
    for byte in 0..=255u32 {
        let color = Color::from_hex(&format!("#102030{byte:02x}")).unwrap();
        assert_eq!((color.red, color.green, color.blue), (16, 32, 48));
        assert_eq!(alpha(&color), byte as f32 / 255.0);
    }
}

#[test]
fn hex_errors_tell_shape_from_value() {
    for text in [
        "", "FF8040", "F80", "#", "#F", "#FF", "#FF80", "#FF804", "#FF8040C", "#FF8040CCD",
        " #FF8040", "#FF8040 ", "#FF 8040", "#éé0",
    ] {
        assert_eq!(Color::from_hex(text), Err(ColorError::InvalidFormat), "{text:?}");
    }
    for text in [
        "#F8Z", "#G00", "#FF80ZZ", "#ZZ8040", "#FF8040ZZ", "#FF80ZZCC", "#+F+F+F", "#ééé", "#-10000",
        "#12 456", "#éa",
    ] {
        assert_eq!(
            Color::from_hex(text),
            Err(ColorError::InvalidColorFormat),
            "{text:?}"
        );
    }
}

#[test]
fn functional_notation_allows_white_space() {
    assert_eq!(parse("rgb(255,128,64)"), parse("rgb(255, 128, 64)"));
    let expected = Ok(Color::new(255, 128, 64));
    for text in [
        "rgb(255,128,64)",
        "  rgb(255,128,64)  ",
        "\trgb( 255 ,\t128 , 64 )\n",
        "rgb(255.0,128.0,64.0)",
        "rgb(2.55e2,128,64)",
        "\u{3000}rgb(\u{a0}255\u{2003},128,64)\u{2028}",
        "rgba(255,128,64)",
        "rgb(255,128,64,1)",
        "rgba(255,128,64,1.0)",
    ] {
        assert_eq!(parse(text), expected, "{text:?}");
    }
}

#[test]
fn functional_notation_is_split_at_every_comma() {
    assert_eq!(
        parse(" rgba( 1 ,2,  3 , 0.5 ) "),
        Ok(Color::with_alpha(1, 2, 3, 0.5f32.to_bits()))
    );
    // the first bracket opens and the last one closes, whatever stands between
    assert_eq!(parse("rgb(1, 2, 3)"), Ok(Color::new(1, 2, 3)));
    assert_eq!(parse("rgb(1, (2), 3)"), Err(ColorError::InvalidColorFormat));
    assert_eq!(parse("rgb(1, 2, 3))"), Err(ColorError::InvalidColorFormat));
    assert_eq!(parse("rgba(rgb(1,2,3)"), Err(ColorError::InvalidColorFormat));
    assert_eq!(parse("rgb(,,)"), Err(ColorError::InvalidColorFormat));
    assert_eq!(parse("rgb(,,,)"), Err(ColorError::InvalidColorFormat));
    assert_eq!(parse("rgb(,,,,)"), Err(ColorError::InvalidFormat));
}

#[test]
fn functional_notation_of_another_shape_is_refused() {
    for text in [
        "",
        "rgb",
        "rgb(",
        "rgb()",
        "rgba()",
        "rgb(1)",
        "rgb(1,2)",
        "rgb(1,2,3,4,5)",
        "rgba(1,2,3,4,5,6)",
        "rgb(1,2,3",
        "rgb 1,2,3)",
        "rgb (1,2,3)",
        "RGB(1,2,3)",
        "Rgb(1,2,3)",
        "hsl(1,2,3)",
        "rgbb(1,2,3)",
        "rgbaa(1,2,3)",
        "rgb(1,2,3);",
        "rgb(1;2;3)",
        "(1,2,3)",
        "rgba)",
        "rgb)",
    ] {
        assert_eq!(
            Color::from_rgba(text),
            Err(ColorError::InvalidFormat),
            "{text:?}"
        );
        assert_eq!(parse(text), Err(ColorError::InvalidFormat), "{text:?}");
    }
}

#[test]
fn functional_components_out_of_range_are_refused() {
    for text in [
        "rgba(256,0,0,1)",
        "rgb(255.5,0,0)",
        "rgb(0,-0.1,0)",
        "rgb(0,0,1e3)",
        "rgb(0,0,inf)",
        "rgb(nan,0,0)",
        "rgba(0,0,0,nan)",
        "rgba(0,0,0,1.1)",
        "rgba(0,0,0,-0.1)",
        "rgb(,,)",
        "rgb(1,2,x)",
        "rgb(1,2,3 4)",
        "rgb(1,2,0x10)",
        "rgba(1,2,3,)",
        "rgb(1,2,3%)",
    ] {
        assert_eq!(parse(text), Err(ColorError::InvalidColorFormat), "{text:?}");
    }
}

#[test]
fn functional_channels_are_rounded_to_the_nearest_integer() {
    assert_eq!(parse("rgb(0.4, 0.5, 0.6)"), Ok(Color::new(0, 1, 1)));
    assert_eq!(parse("rgb(254.4, 254.5, 255)"), Ok(Color::new(254, 255, 255)));
    assert_eq!(parse("rgb(127.5, 1.5, 2.5)"), Ok(Color::new(128, 2, 3)));
    assert_eq!(parse("rgb(-0, 0, 1e-40)"), Ok(Color::new(0, 0, 0)));
    assert_eq!(parse("rgb(0.49999997, 1e1, +7)"), Ok(Color::new(0, 10, 7)));
}

#[test]
fn functional_opacity_is_kept_as_it_was_read() {
    for text in ["0", "1", "0.5", "0.3", "1e-3", "0.99999994", ".25", "1."] {
        let color = parse(&format!("rgba(1,2,3,{text})")).unwrap();
        assert_eq!(color.alpha, text.parse::<f32>().unwrap().to_bits());
    }
    assert_eq!(parse("rgb(1,2,3)").unwrap().alpha, ONE);
}

#[test]
fn the_number_of_components_is_judged_before_any_of_them() {
    assert_eq!(parse("rgb(x,y)"), Err(ColorError::InvalidFormat));
    assert_eq!(parse("rgb(x,y,z,v,w)"), Err(ColorError::InvalidFormat));
    assert_eq!(parse("rgb(x,y,z)"), Err(ColorError::InvalidColorFormat));
    assert_eq!(parse("rgb(1,1,1)"), Ok(Color::new(1, 1, 1)));
    assert_eq!(parse("rgba(1,1,1,1)"), Ok(Color::new(1, 1, 1)));
}

#[test]
fn functional_notation_agrees_with_reading_by_hand() {
    // every component is read as std reads a number
    let mut state: u64 = 0x5851_F42D_4C95_7F2D;
    let mut next = move || {
        state ^= state << 13;
        state ^= state >> 7;
        state ^= state << 17;
        (state >> 20) as u32
    };
    for _ in 0..20_000 {
        let numbers = [
            (next() % 3000) as f32 / 10.0 - 20.0,
            (next() % 2560) as f32 / 10.0,
            (next() % 256) as f32,
            (next() % 1200) as f32 / 1000.0 - 0.1,
        ];
        let text = format!(
            "rgba({}, {},{} ,{})",
            numbers[0], numbers[1], numbers[2], numbers[3]
        );
        let within = numbers[..3].iter().all(|n| (0.0..=255.0).contains(n))
            && (0.0..=1.0).contains(&numbers[3]);
        let expected = if within {
            Ok(Color {
                red: numbers[0].round() as u8,
                green: numbers[1].round() as u8,
                blue: numbers[2].round() as u8,
                alpha: numbers[3].to_bits(),
            })
        } else {
            Err(ColorError::InvalidColorFormat)
        };
        assert_eq!(parse(&text), expected, "{text}");
    }
}

#[test]
fn errors_describe_themselves() {
    assert_eq!(
        ColorError::InvalidFormat.message(),
        "Invalid hex color format. Use #RRGGBB."
    );
    assert_eq!(
        ColorError::InvalidColorFormat.message(),
        "Invalid color format."
    );
}

#[test]
fn texts_that_are_no_color_are_refused() {
    assert_eq!(parse("FF8040"), Err(ColorError::InvalidFormat));
    assert_eq!(parse("#FF804"), Err(ColorError::InvalidFormat));
    assert_eq!(parse("#FF80ZZ"), Err(ColorError::InvalidColorFormat));
    assert_eq!(parse("rgba(256,0,0,1)"), Err(ColorError::InvalidColorFormat));
    assert_eq!(parse("rgb(1,2)"), Err(ColorError::InvalidFormat));
}

#[test]
fn the_word_before_the_bracket_does_not_count_the_components() {
    assert_eq!(
        parse("rgb(1,2,3,0.5)"),
        Ok(Color::with_alpha(1, 2, 3, 0.5f32.to_bits()))
    );
    assert_eq!(parse("rgba(1,2,3)"), Ok(Color::new(1, 2, 3)));
}
