use rustint::binary32::arithmetic::{fraction_of_byte, scale_to_byte};
use rustint::binary32::{
    clamp_to_unit, is_le, is_near_one, is_not_a_number, round_to_byte,
    truncate_to_byte, INFINITY, MAX_CHANNEL, ONE, SIGN_BIT, ZERO,
};

/// Bit patterns spread over the whole range, and every pattern near a number
/// at which one of the functions changes its answer.
fn patterns() -> Vec<u32> {
    let mut all: Vec<u32> = Vec::new();
    let mut bits: u32 = 0;
    loop {
        all.push(bits);
        match bits.checked_add(4099) {
            Some(next) => bits = next,
            None => break,
        }
    }
    for step in 0..=512u32 {
        let half = step as f32 / 2.0;
        for sign in [0u32, SIGN_BIT] {
            let centre = half.to_bits() | sign;
            for near in centre.saturating_sub(3)..=centre.saturating_add(3) {
                all.push(near);
            }
        }
    }
    for byte in 0..=256u32 {
        let centre = (byte as f32 / 255.0).to_bits();
        for near in centre.saturating_sub(3)..=centre.saturating_add(3) {
            all.push(near);
            all.push(near | SIGN_BIT);
        }
    }
    for centre in [0x0080_0000u32, 0x7F7F_FFFF, 0x7F80_0000, 0x7FC0_0000, 0xFFFF_FFFF] {
        for near in centre.saturating_sub(3)..=centre.saturating_add(3) {
            all.push(near);
            all.push(near | SIGN_BIT);
        }
    }
    all
}

#[test]
fn constants_are_the_bit_patterns_of_their_numbers() {
    assert_eq!(ZERO, 0.0f32.to_bits());
    assert_eq!(ONE, 1.0f32.to_bits());
    assert_eq!(MAX_CHANNEL, 255.0f32.to_bits());
    assert_eq!(SIGN_BIT, (-0.0f32).to_bits());
    assert_eq!(INFINITY, f32::INFINITY.to_bits());
}

#[test]
fn not_a_number_is_told_as_the_hardware_tells_it() {
    for bits in patterns() {
        assert_eq!(is_not_a_number(bits), f32::from_bits(bits).is_nan(), "{bits:#x}");
    }
}

#[test]
fn order_is_the_order_of_the_numbers() {
    let all = patterns();
    let some: Vec<u32> = all.iter().copied().step_by(30011).collect();
    for &a in &all {
        for &b in &some {
            assert_eq!(
                is_le(a, b),
                f32::from_bits(a) <= f32::from_bits(b),
                "{a:#x} <= {b:#x}"
            );
            assert_eq!(
                is_le(b, a),
                f32::from_bits(b) <= f32::from_bits(a),
                "{b:#x} <= {a:#x}"
            );
        }
    }
}

#[test]
fn clamping_brings_numbers_into_the_unit_range() {
    for bits in patterns() {
        let value = f32::from_bits(bits);
        let clamped = f32::from_bits(clamp_to_unit(bits));
        if value.is_nan() {
            assert_eq!(clamp_to_unit(bits), bits);
        } else {
            assert_eq!(clamped.to_bits(), value.clamp(0.0, 1.0).to_bits(), "{bits:#x}");
        }
    }
    assert_eq!(clamp_to_unit(2.5f32.to_bits()), ONE);
    assert_eq!(clamp_to_unit((-2.5f32).to_bits()), ZERO);
    assert_eq!(clamp_to_unit(0.25f32.to_bits()), 0.25f32.to_bits());
    assert_eq!(clamp_to_unit(f32::INFINITY.to_bits()), ONE);
    assert_eq!(clamp_to_unit(f32::NEG_INFINITY.to_bits()), ZERO);
    assert_eq!(clamp_to_unit(SIGN_BIT), SIGN_BIT);
}

#[test]
fn near_one_is_less_than_epsilon_from_one() {
    for bits in patterns() {
        let value = f32::from_bits(bits);
        assert_eq!(
            is_near_one(bits),
            (value - 1.0).abs() < f32::EPSILON,
            "{bits:#x}"
        );
    }
    for bits in ONE - 40..=ONE + 40 {
        let value = f32::from_bits(bits);
        assert_eq!(is_near_one(bits), (value - 1.0).abs() < f32::EPSILON);
    }
    assert!(is_near_one(ONE));
    assert!(is_near_one(ONE - 1));
    assert!(!is_near_one(ONE - 2));
    assert!(!is_near_one(ONE + 1));
}

#[test]
fn rounding_to_a_byte_is_round_and_narrow() {
    for bits in patterns() {
        let value = f32::from_bits(bits);
        assert_eq!(round_to_byte(bits), value.round() as u8, "{bits:#x} {value}");
    }
    assert_eq!(round_to_byte(127.5f32.to_bits()), 128);
    assert_eq!(round_to_byte(127.49999f32.to_bits()), 127);
    assert_eq!(round_to_byte(0.5f32.to_bits()), 1);
    assert_eq!(round_to_byte(0.49999997f32.to_bits()), 0);
    assert_eq!(round_to_byte(63.75f32.to_bits()), 64);
    assert_eq!(round_to_byte(191.25f32.to_bits()), 191);
    assert_eq!(round_to_byte(254.5f32.to_bits()), 255);
    assert_eq!(round_to_byte(255.5f32.to_bits()), 255);
    assert_eq!(round_to_byte(1.0e30f32.to_bits()), 255);
    assert_eq!(round_to_byte((-3.0f32).to_bits()), 0);
    assert_eq!(round_to_byte(f32::NAN.to_bits()), 0);
}

#[test]
fn cutting_to_a_byte_is_the_cast_to_a_byte() {
    for bits in patterns() {
        let value = f32::from_bits(bits);
        assert_eq!(truncate_to_byte(bits), value as u8, "{bits:#x} {value}");
    }
    assert_eq!(truncate_to_byte(254.99998f32.to_bits()), 254);
    assert_eq!(truncate_to_byte(255.0f32.to_bits()), 255);
    assert_eq!(truncate_to_byte(0.99999994f32.to_bits()), 0);
    assert_eq!(truncate_to_byte(1.0f32.to_bits()), 1);
    assert_eq!(truncate_to_byte(1.0e9f32.to_bits()), 255);
    assert_eq!(truncate_to_byte((-7.5f32).to_bits()), 0);
}

#[test]
fn scaling_to_a_byte_is_multiply_and_cut() {
    for bits in patterns() {
        let value = f32::from_bits(bits);
        assert_eq!(scale_to_byte(bits), (value * 255.0) as u8, "{bits:#x} {value}");
    }
    assert_eq!(scale_to_byte(0.8f32.to_bits()), 204);
    assert_eq!(scale_to_byte(0.5f32.to_bits()), 127);
    assert_eq!(scale_to_byte(0.0f32.to_bits()), 0);
    assert_eq!(scale_to_byte(0.999f32.to_bits()), 254);
    assert_eq!(scale_to_byte(1.0f32.to_bits()), 255);
    assert_eq!(scale_to_byte(7.0f32.to_bits()), 255);
    assert_eq!(scale_to_byte((-0.5f32).to_bits()), 0);
    assert_eq!(scale_to_byte(f32::NAN.to_bits()), 0);
}

#[test]
fn scaling_to_a_byte_agrees_on_a_dense_sweep_below_one() {
    let mut bits: u32 = 0x3B00_0000;
    while bits <= 0x3F90_0000 {
        let value = f32::from_bits(bits);
        assert_eq!(scale_to_byte(bits), (value * 255.0) as u8, "{bits:#x}");
        bits += 37;
    }
}

#[test]
fn the_fraction_of_a_byte_is_the_quotient_by_255() {
    for byte in 0..=255u8 {
        assert_eq!(
            fraction_of_byte(byte),
            (byte as f32 / 255.0).to_bits(),
            "{byte}"
        );
    }
    assert_eq!(fraction_of_byte(0), ZERO);
    assert_eq!(fraction_of_byte(255), ONE);
    assert_eq!(f32::from_bits(fraction_of_byte(204)), 0.8);
    assert_eq!(f32::from_bits(fraction_of_byte(51)), 0.2);
}

#[test]
fn a_byte_is_scaled_back_from_its_fraction() {
    for byte in 0..=255u8 {
        assert_eq!(scale_to_byte(fraction_of_byte(byte)), byte);
        assert_eq!(is_near_one(fraction_of_byte(byte)), byte == 255);
    }
}
