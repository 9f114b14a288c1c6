use rustint::binary32::arithmetic::{
    add, divide, from_byte, multiply, negate, subtract, HUNDRED, NAN,
};

/// A small generator of bit patterns: xorshift.
struct Patterns(u64);

impl Patterns {
    fn next(&mut self) -> u32 {
        self.0 ^= self.0 << 13;
        self.0 ^= self.0 >> 7;
        self.0 ^= self.0 << 17;
        (self.0 >> 16) as u32
    }

    /// A pattern whose exponent lies near that of one, or anywhere.
    fn number(&mut self) -> u32 {
        let bits = self.next();
        match bits % 4 {
            0 => bits,
            1 => (bits & 0x807F_FFFF) | (((bits >> 23) % 64 + 96) << 23),
            2 => (bits & 0x807F_FFFF) | (((bits >> 23) % 8) << 23),
            _ => (bits & 0x807F_FFFF) | (((bits >> 23) % 8 + 247) << 23),
        }
    }
}

fn special() -> Vec<u32> {
    let mut all = vec![
        0x0000_0000u32,
        0x0000_0001,
        0x0000_0002,
        0x0000_0003,
        0x0040_0000,
        0x007F_FFFF,
        0x0080_0000,
        0x0080_0001,
        0x00FF_FFFF,
        0x0100_0000,
        0x3380_0000,
        0x33FF_FFFF,
        0x3400_0000,
        0x3EFF_FFFF,
        0x3F00_0000,
        0x3F7F_FFFF,
        0x3F80_0000,
        0x3F80_0001,
        0x3FC0_0000,
        0x4000_0000,
        0x4040_0000,
        0x42C8_0000,
        0x437F_0000,
        0x4B00_0000,
        0x4B7F_FFFF,
        0x4B80_0000,
        0x5F00_0000,
        0x7F00_0000,
        0x7F7F_FFFE,
        0x7F7F_FFFF,
        0x7F80_0000,
        0x7F80_0001,
        0x7FC0_0000,
        0x7FFF_FFFF,
    ];
    let negative: Vec<u32> = all.iter().map(|bits| bits | 0x8000_0000).collect();
    all.extend(negative);
    all
}

/// The same bit pattern, or both no number.
fn same(ours: u32, theirs: f32) -> bool {
    if theirs.is_nan() {
        ours == NAN
    } else {
        ours == theirs.to_bits()
    }
}

#[test]
fn constants_of_arithmetic_are_their_numbers() {
    assert_eq!(HUNDRED, 100.0f32.to_bits());
    assert!(f32::from_bits(NAN).is_nan());
}

#[test]
fn negation_flips_the_sign() {
    for bits in special() {
        assert_eq!(negate(bits), (-f32::from_bits(bits)).to_bits());
    }
}

#[test]
fn products_of_special_numbers() {
    for a in special() {
        for b in special() {
            let theirs = f32::from_bits(a) * f32::from_bits(b);
            assert!(same(multiply(a, b), theirs), "{a:#x} * {b:#x}");
        }
    }
}

#[test]
fn quotients_of_special_numbers() {
    for a in special() {
        for b in special() {
            let theirs = f32::from_bits(a) / f32::from_bits(b);
            assert!(same(divide(a, b), theirs), "{a:#x} / {b:#x}");
        }
    }
}

#[test]
fn products_of_many_numbers() {
    let mut patterns = Patterns(0x9E37_79B9_7F4A_7C15);
    for _ in 0..400_000 {
        let a = patterns.number();
        let b = patterns.number();
        let theirs = f32::from_bits(a) * f32::from_bits(b);
        assert!(same(multiply(a, b), theirs), "{a:#x} * {b:#x}");
    }
}

#[test]
fn quotients_of_many_numbers() {
    let mut patterns = Patterns(0xD1B5_4A32_D192_ED03);
    for _ in 0..400_000 {
        let a = patterns.number();
        let b = patterns.number();
        let theirs = f32::from_bits(a) / f32::from_bits(b);
        assert!(same(divide(a, b), theirs), "{a:#x} / {b:#x}");
    }
}

#[test]
fn products_that_end_among_the_smallest_numbers() {
    let mut patterns = Patterns(0x2545_F491_4F6C_DD1D);
    for _ in 0..200_000 {
        let a = (patterns.next() & 0x807F_FFFF) | ((patterns.next() % 40 + 40) << 23);
        let b = (patterns.next() & 0x807F_FFFF) | ((patterns.next() % 40 + 40) << 23);
        let theirs = f32::from_bits(a) * f32::from_bits(b);
        assert!(same(multiply(a, b), theirs), "{a:#x} * {b:#x}");
        let c = (patterns.next() & 0x807F_FFFF) | ((patterns.next() % 30) << 23);
        let d = (patterns.next() & 0x807F_FFFF) | ((patterns.next() % 30 + 120) << 23);
        let theirs = f32::from_bits(c) / f32::from_bits(d);
        assert!(same(divide(c, d), theirs), "{c:#x} / {d:#x}");
    }
}

#[test]
fn quotients_by_one_hundred() {
    let mut patterns = Patterns(0x1234_5678_9ABC_DEF1);
    for _ in 0..400_000 {
        let a = patterns.number();
        let theirs = f32::from_bits(a) / 100.0;
        assert!(same(divide(a, HUNDRED), theirs), "{a:#x} / 100");
    }
    for tenth in 0..=2000u32 {
        let a = tenth as f32 / 10.0;
        assert_eq!(divide(a.to_bits(), HUNDRED), (a / 100.0).to_bits());
    }
}

#[test]
fn sums_and_differences_of_special_numbers() {
    for a in special() {
        for b in special() {
            let theirs = f32::from_bits(a) + f32::from_bits(b);
            assert!(same(add(a, b), theirs), "{a:#x} + {b:#x}");
            let theirs = f32::from_bits(a) - f32::from_bits(b);
            assert!(same(subtract(a, b), theirs), "{a:#x} - {b:#x}");
        }
    }
}

#[test]
fn sums_of_many_numbers() {
    let mut patterns = Patterns(0xA076_1D64_78BD_642F);
    for _ in 0..400_000 {
        let a = patterns.number();
        let b = patterns.number();
        let theirs = f32::from_bits(a) + f32::from_bits(b);
        assert!(same(add(a, b), theirs), "{a:#x} + {b:#x}");
    }
}

#[test]
fn sums_of_numbers_of_nearby_size() {
    let mut patterns = Patterns(0xE703_7ED1_A0B4_28DB);
    for _ in 0..600_000 {
        let a = patterns.number();
        let exponent = (a >> 23) & 0xFF;
        let shift = patterns.next() % 60;
        let near = (exponent + 30).saturating_sub(shift).min(254);
        let b = (patterns.next() & 0x807F_FFFF) | (near << 23);
        let theirs = f32::from_bits(a) + f32::from_bits(b);
        assert!(same(add(a, b), theirs), "{a:#x} + {b:#x}");
        let theirs = f32::from_bits(a) - f32::from_bits(b);
        assert!(same(subtract(a, b), theirs), "{a:#x} - {b:#x}");
    }
}

#[test]
fn sums_next_to_a_power_of_two() {
    // a power of two less a little: the numbers below it lie half as far apart
    for exponent in 1..=254u32 {
        let power = exponent << 23;
        for small_exponent in 0..exponent {
            for fraction in [0u32, 1, 0x40_0000, 0x7F_FFFF] {
                let small = (small_exponent << 23) | fraction;
                for (a, b) in [
                    (power, small),
                    (power, small | 0x8000_0000),
                    (power | 0x8000_0000, small),
                    (small, power | 0x8000_0000),
                    (power | 1, small | 0x8000_0000),
                    (power | 0x7F_FFFF, small),
                ] {
                    let theirs = f32::from_bits(a) + f32::from_bits(b);
                    assert!(same(add(a, b), theirs), "{a:#x} + {b:#x}");
                }
            }
        }
    }
}

#[test]
fn bytes_are_their_numbers() {
    for value in 0..=255u8 {
        assert_eq!(from_byte(value), (value as f32).to_bits());
    }
}

#[test]
fn sums_and_differences_of_bytes_are_exact() {
    for a in 0..=255u8 {
        for b in 0..=255u8 {
            assert_eq!(
                subtract(from_byte(a), from_byte(b)),
                (a as f32 - b as f32).to_bits()
            );
            assert_eq!(
                add(from_byte(a), from_byte(b)),
                (a as f32 + b as f32).to_bits()
            );
        }
    }
}
