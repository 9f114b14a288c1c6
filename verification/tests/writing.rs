use rustint::binary32::decimal::parse_number;
use rustint::binary32::writing::write_number;

struct Patterns(u64);

impl Patterns {
    fn next(&mut self) -> u32 {
        self.0 ^= self.0 << 13;
        self.0 ^= self.0 >> 7;
        self.0 ^= self.0 << 17;
        (self.0 >> 16) as u32
    }
}

fn agrees(bits: u32) {
    let value = f32::from_bits(bits);
    assert_eq!(write_number(bits), format!("{value}"), "{bits:#x}");
}

#[test]
fn numbers_are_written_with_the_fewest_digits() {
    for (value, text) in [
        (0.0f32, "0"),
        (-0.0, "-0"),
        (1.0, "1"),
        (-1.0, "-1"),
        (0.5, "0.5"),
        (0.8, "0.8"),
        (0.99, "0.99"),
        (0.1, "0.1"),
        (0.3, "0.3"),
        (255.0, "255"),
        (100.0, "100"),
        (1e10, "10000000000"),
        (1e-7, "0.0000001"),
        (9.5, "9.5"),
        (99999.99, "99999.99"),
        (0.99999994, "0.99999994"),
        (16777216.0, "16777216"),
        (123456789.0, "123456790"),
        (1e23, "100000000000000000000000"),
        (3.4028235e38, "340282350000000000000000000000000000000"),
        (1.0e-45, "0.000000000000000000000000000000000000000000001"),
        (1.17549435e-38, "0.000000000000000000000000000000000000011754944"),
        (f32::INFINITY, "inf"),
        (f32::NEG_INFINITY, "-inf"),
        (f32::NAN, "NaN"),
    ] {
        assert_eq!(write_number(value.to_bits()), text);
    }
    assert_eq!(write_number((-f32::NAN).to_bits()), "NaN");
}

#[test]
fn of_two_decimals_equally_near_the_upper_is_written() {
    assert_eq!(write_number(1048576.25f32.to_bits()), "1048576.3");
    assert_eq!(write_number(1050267.25f32.to_bits()), "1050267.3");
    assert_eq!(write_number(1049481.75f32.to_bits()), "1049481.8");
    assert_eq!(write_number(1049612.625f32.to_bits()), "1049612.6");
    assert_eq!(write_number(2097152.5f32.to_bits()), "2097152.5");
}

#[test]
fn opacities_are_written_as_std_writes_them() {
    for thousandth in 0..=1000u32 {
        agrees((thousandth as f32 / 1000.0).to_bits());
    }
    for byte in 0..=255u32 {
        agrees((byte as f32 / 255.0).to_bits());
    }
}

#[test]
fn numbers_of_every_size_are_written_as_std_writes_them() {
    let mut patterns = Patterns(0x452821E638D01377);
    for _ in 0..5000 {
        agrees(patterns.next());
    }
}

#[test]
fn numbers_around_one_are_written_as_std_writes_them() {
    let mut patterns = Patterns(0xBE5466CF34E90C6C);
    for _ in 0..5000 {
        let bits = 0x3000_0000 + patterns.next() % 0x2000_0000;
        agrees(bits);
    }
}

#[test]
fn the_smallest_and_the_largest_are_written_as_std_writes_them() {
    for bits in (1..200u32).chain(0x007F_FF00..0x0080_0100).step_by(7) {
        agrees(bits);
        agrees(bits | 0x8000_0000);
    }
    for bits in (0x7F7F_FF00..0x7F80_0000u32).step_by(5) {
        agrees(bits);
    }
}

#[test]
fn numbers_next_to_a_power_of_two_or_ten_are_written_as_std_writes_them() {
    for exponent in 1..=254u32 {
        let power = exponent << 23;
        for bits in [power - 1, power, power + 1] {
            agrees(bits);
        }
    }
    for exponent in -45..=38i32 {
        let power = format!("1e{exponent}").parse::<f32>().unwrap().to_bits();
        for bits in [power - 1, power, power + 1] {
            agrees(bits);
        }
    }
}

#[test]
fn what_is_written_is_read_back() {
    let mut patterns = Patterns(0xC0AC29B7C97C50DD);
    for _ in 0..3000 {
        let bits = patterns.next();
        if f32::from_bits(bits).is_nan() {
            continue;
        }
        assert_eq!(parse_number(&write_number(bits)), Some(bits), "{bits:#x}");
    }
}
