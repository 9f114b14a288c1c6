use rustint::binary32::ONE;
use rustint::Color;

fn with_alpha(red: u8, green: u8, blue: u8, alpha: f32) -> Color {
    Color::with_alpha(red, green, blue, alpha.to_bits())
}

#[test]
fn test_display() {
    let color = Color::new(255, 128, 64);
    assert_eq!(color.to_string(), "#FF8040");

    let color = with_alpha(255, 128, 64, 0.8);
    assert_eq!(color.to_string(), "#FF8040CC");
}

#[test]
fn test_to_hex() {
    assert_eq!(with_alpha(0, 0, 0, 1.0).to_hex(), "#000000");
    assert_eq!(with_alpha(255, 255, 255, 1.0).to_hex(), "#FFFFFF");
    assert_eq!(with_alpha(255, 128, 64, 1.0).to_hex(), "#FF8040");
    assert_eq!(with_alpha(10, 27, 44, 1.0).to_hex(), "#0A1B2C");
    assert_eq!(with_alpha(255, 128, 64, 0.8).to_hex(), "#FF8040CC");
    assert_eq!(with_alpha(255, 128, 64, 0.0).to_hex(), "#FF804000");
}

#[test]
fn test_to_rgb() {
    assert_eq!(with_alpha(0, 0, 0, 1.0).to_rgba(), "rgb(0, 0, 0)");
    assert_eq!(
        with_alpha(255, 255, 255, 1.0).to_rgba(),
        "rgb(255, 255, 255)"
    );
    assert_eq!(
        with_alpha(255, 255, 255, 0.99).to_rgba(),
        "rgba(255, 255, 255, 0.99)"
    );
    assert_eq!(
        with_alpha(255, 255, 255, 0.0).to_rgba(),
        "rgba(255, 255, 255, 0)"
    );
}

#[test]
fn hex_has_seven_characters_when_opaque_and_nine_otherwise() {
    for alpha in [0.0f32, 0.25, 0.5, 0.999, 0.9999999] {
        let text = with_alpha(1, 2, 3, alpha).to_hex();
        assert_eq!(text.len(), 9, "{alpha}");
        assert!(text.starts_with("#010203"));
    }
    assert_eq!(with_alpha(1, 2, 3, 1.0).to_hex().len(), 7);
    assert_eq!(with_alpha(1, 2, 3, 2.0).to_hex().len(), 7);
    assert_eq!(Color::new(1, 2, 3).to_hex().len(), 7);
    // the largest number below one still counts as opaque
    let nearly = Color { red: 1, green: 2, blue: 3, alpha: ONE - 1 };
    assert_eq!(nearly.to_hex(), "#010203");
    let not_quite = Color { red: 1, green: 2, blue: 3, alpha: ONE - 2 };
    assert_eq!(not_quite.to_hex(), "#010203FE");
}

#[test]
fn hex_cuts_the_opacity_off() {
    assert_eq!(with_alpha(0, 0, 0, 0.5).to_hex(), "#0000007F");
    assert_eq!(with_alpha(0, 0, 0, 0.999).to_hex(), "#000000FE");
    assert_eq!(with_alpha(0, 0, 0, 0.003).to_hex(), "#00000000");
    assert_eq!(with_alpha(0, 0, 0, 0.004).to_hex(), "#00000001");
    assert_eq!(with_alpha(0, 0, 0, -3.0).to_hex(), "#00000000");
    for step in 0..=1000u32 {
        let alpha = step as f32 / 1000.0;
        let text = with_alpha(171, 205, 239, alpha).to_hex();
        if (alpha - 1.0).abs() < f32::EPSILON {
            assert_eq!(text, "#ABCDEF");
        } else {
            assert_eq!(text, format!("#ABCDEF{:02X}", (alpha * 255.0) as u8));
        }
    }
}

#[test]
fn hex_is_upper_case_with_two_digits_a_channel() {
    for value in 0..=255u8 {
        let text = Color::new(value, 255 - value, value / 2).to_hex();
        assert_eq!(
            text,
            format!("#{:02X}{:02X}{:02X}", value, 255 - value, value / 2)
        );
    }
}

#[test]
fn rgba_begins_with_rgb_when_opaque_and_rgba_otherwise() {
    let opaque = Color::new(1, 20, 255).to_rgba();
    assert_eq!(opaque, "rgb(1, 20, 255)");
    assert!(opaque.starts_with("rgb("));
    let clear = with_alpha(1, 20, 255, 0.5).to_rgba();
    assert_eq!(clear, "rgba(1, 20, 255, 0.5)");
    assert!(clear.starts_with("rgba("));
    // the largest number below one still counts as opaque
    let nearly = Color { red: 1, green: 2, blue: 3, alpha: ONE - 1 };
    assert_eq!(nearly.to_rgba(), "rgb(1, 2, 3)");
    let not_quite = Color { red: 1, green: 2, blue: 3, alpha: ONE - 2 };
    assert_eq!(not_quite.to_rgba(), "rgba(1, 2, 3, 0.9999999)");
}

#[test]
fn rgba_writes_the_opacity_in_the_fewest_digits() {
    for thousandth in 0..1000u32 {
        let alpha = thousandth as f32 / 1000.0;
        assert_eq!(
            with_alpha(7, 8, 9, alpha).to_rgba(),
            format!("rgba(7, 8, 9, {alpha})")
        );
    }
    for byte in 0..255u32 {
        let color = Color::from_hex(&format!("#070809{byte:02X}")).unwrap();
        assert_eq!(
            color.to_rgba(),
            format!("rgba(7, 8, 9, {})", byte as f32 / 255.0)
        );
    }
    let unusual = Color { red: 0, green: 0, blue: 0, alpha: f32::NAN.to_bits() };
    assert_eq!(unusual.to_rgba(), "rgba(0, 0, 0, NaN)");
    let negative = Color { red: 0, green: 0, blue: 0, alpha: (-0.0f32).to_bits() };
    assert_eq!(negative.to_rgba(), "rgba(0, 0, 0, -0)");
    let beyond = Color { red: 0, green: 0, blue: 0, alpha: 2.5f32.to_bits() };
    assert_eq!(beyond.to_rgba(), "rgba(0, 0, 0, 2.5)");
}

#[test]
fn rgba_writes_every_byte_in_decimal() {
    for value in 0..=255u8 {
        assert_eq!(
            Color::new(value, 0, 255 - value).to_rgba(),
            format!("rgb({}, 0, {})", value, 255 - value)
        );
    }
}

#[test]
fn a_color_is_read_back_from_its_functional_notation() {
    for thousandth in 0..=1000u32 {
        let color = with_alpha(thousandth as u8, 200, 30, thousandth as f32 / 1000.0);
        assert_eq!(Color::from_rgba(&color.to_rgba()), Ok(color));
        assert_eq!(Color::try_from(color.to_rgba().as_str()), Ok(color));
    }
}

#[test]
fn a_color_is_read_back_from_its_hex() {
    for red in [0u8, 1, 9, 10, 15, 16, 127, 128, 200, 254, 255] {
        for green in [0u8, 17, 99, 160, 255] {
            for blue in [0u8, 5, 171, 255] {
                let color = Color::new(red, green, blue);
                assert_eq!(Color::from_hex(&color.to_hex()), Ok(color));
                let nearly = Color { red, green, blue, alpha: ONE - 1 };
                assert_eq!(Color::from_hex(&nearly.to_hex()), Ok(color));
            }
        }
    }
}

#[test]
fn a_color_read_from_hex_is_written_as_it_was_read() {
    for byte in 0..=255u32 {
        let text = format!("#0A1B2C{byte:02X}");
        let color = Color::from_hex(&text).unwrap();
        let written = color.to_hex();
        if byte == 255 {
            assert_eq!(written, "#0A1B2C");
        } else {
            assert_eq!(written, text);
        }
        assert_eq!(Color::from_hex(&written), Ok(color));
    }
}
