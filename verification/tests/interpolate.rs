use rustint::binary32::arithmetic::HUNDRED;
use rustint::binary32::{ONE, ZERO};
use rustint::Color;

/// The blend as the hardware computes it.
fn reference(from: &Color, to: &Color, percentage: f32) -> (u8, u8, u8, f32) {
    let ratio = percentage / 100.0;
    let red = (from.red as f32 + (to.red as f32 - from.red as f32) * ratio).round() as u8;
    let green = (from.green as f32 + (to.green as f32 - from.green as f32) * ratio).round() as u8;
    let blue = (from.blue as f32 + (to.blue as f32 - from.blue as f32) * ratio).round() as u8;
    let from_alpha = f32::from_bits(from.alpha);
    let to_alpha = f32::from_bits(to.alpha);
    let alpha = (from_alpha + (to_alpha - from_alpha) * ratio).clamp(0.0, 1.0);
    (red, green, blue, alpha)
}

fn agrees(from: &Color, to: &Color, percentage: f32) {
    let ours = from.interpolate(to, percentage.to_bits());
    let (red, green, blue, alpha) = reference(from, to, percentage);
    assert_eq!(
        (ours.red, ours.green, ours.blue),
        (red, green, blue),
        "{from:?} {to:?} {percentage}"
    );
    if alpha.is_nan() {
        assert!(f32::from_bits(ours.alpha).is_nan());
    } else {
        assert_eq!(ours.alpha, alpha.to_bits(), "{from:?} {to:?} {percentage}");
    }
}

struct Patterns(u64);

impl Patterns {
    fn next(&mut self) -> u32 {
        self.0 ^= self.0 << 13;
        self.0 ^= self.0 >> 7;
        self.0 ^= self.0 << 17;
        (self.0 >> 16) as u32
    }

    fn color(&mut self) -> Color {
        let bits = self.next();
        let alpha = (self.next() % 1001) as f32 / 1000.0;
        Color::with_alpha(bits as u8, (bits >> 8) as u8, (bits >> 16) as u8, alpha.to_bits())
    }
}

#[test]
fn test_interpolate() {
    let color1 = Color::new(0, 0, 0);
    let color2 = Color::new(255, 255, 255);

    let interpolated = color1.interpolate(&color2, 50.0f32.to_bits());
    assert_eq!(interpolated.red, 128);
    assert_eq!(interpolated.green, 128);
    assert_eq!(interpolated.blue, 128);

    let interpolated = color1.interpolate(&color2, 25.0f32.to_bits());
    assert_eq!(interpolated.red, 64);
    assert_eq!(interpolated.green, 64);
    assert_eq!(interpolated.blue, 64);

    let interpolated = color1.interpolate(&color2, 75.0f32.to_bits());
    assert_eq!(interpolated.red, 191);
    assert_eq!(interpolated.green, 191);
    assert_eq!(interpolated.blue, 191);
}

#[test]
fn interpolation_at_its_ends_gives_the_ends() {
    let mut patterns = Patterns(0x0123_4567_89AB_CDEF);
    for _ in 0..20_000 {
        let from = patterns.color();
        let to = patterns.color();
        let start = from.interpolate(&to, ZERO);
        assert_eq!(start, from);
        let end = from.interpolate(&to, HUNDRED);
        assert_eq!((end.red, end.green, end.blue), (to.red, to.green, to.blue));
        let opacity = f32::from_bits(from.alpha) + (f32::from_bits(to.alpha) - f32::from_bits(from.alpha));
        assert_eq!(end.alpha, opacity.clamp(0.0, 1.0).to_bits());
    }
    let from = Color::new(10, 200, 30);
    let to = Color::with_alpha(250, 0, 31, 0.25f32.to_bits());
    assert_eq!(from.interpolate(&to, ZERO), from);
    assert_eq!(from.interpolate(&to, HUNDRED), to);
    assert_eq!(to.interpolate(&from, HUNDRED), from);
}

#[test]
fn the_opacity_at_the_far_end_may_miss_by_rounding() {
    // 1 + (2^-30 - 1) is 0, not 2^-30: the difference is rounded to -1
    let from = Color::new(0, 0, 0);
    let tiny = 2.0f32.powi(-30);
    let to = Color::with_alpha(0, 0, 0, tiny.to_bits());
    let end = from.interpolate(&to, HUNDRED);
    assert_eq!(f32::from_bits(end.alpha), 1.0 + (tiny - 1.0));
    assert_eq!(end.alpha, ZERO);
    assert_ne!(end.alpha, to.alpha);
}

#[test]
fn interpolation_within_the_ends_stays_between_them() {
    let mut patterns = Patterns(0xFEDC_BA98_7654_3210);
    for _ in 0..40_000 {
        let from = patterns.color();
        let to = patterns.color();
        let percentage = (patterns.next() % 100_001) as f32 / 1000.0;
        let between = from.interpolate(&to, percentage.to_bits());
        for (start, end, channel) in [
            (from.red, to.red, between.red),
            (from.green, to.green, between.green),
            (from.blue, to.blue, between.blue),
        ] {
            assert!(start.min(end) <= channel && channel <= start.max(end));
        }
    }
}

#[test]
fn interpolation_agrees_with_the_hardware() {
    let mut patterns = Patterns(0x6A09_E667_F3BC_C908);
    for _ in 0..60_000 {
        let from = patterns.color();
        let to = patterns.color();
        let percentage = (patterns.next() % 100_001) as f32 / 1000.0;
        agrees(&from, &to, percentage);
        let wild = f32::from_bits(patterns.next());
        agrees(&from, &to, wild);
        let past = (patterns.next() % 1_000_000) as f32 / 1000.0 - 500.0;
        agrees(&from, &to, past);
    }
}

#[test]
fn interpolation_takes_any_opacity_and_percentage() {
    let mut patterns = Patterns(0xBB67_AE85_84CA_A73B);
    for _ in 0..60_000 {
        let bits = patterns.next();
        let from = Color {
            red: bits as u8,
            green: (bits >> 8) as u8,
            blue: (bits >> 16) as u8,
            alpha: patterns.next(),
        };
        let to = Color { red: (bits >> 24) as u8, green: 0, blue: 255, alpha: patterns.next() };
        agrees(&from, &to, f32::from_bits(patterns.next()));
    }
    let black = Color::new(0, 0, 0);
    let white = Color::new(255, 255, 255);
    for percentage in [
        f32::NAN,
        f32::INFINITY,
        f32::NEG_INFINITY,
        f32::MAX,
        f32::MIN,
        f32::MIN_POSITIVE,
        1.0e-45,
        -0.0,
        150.0,
        -50.0,
        200.0,
        100.00001,
        99.99999,
    ] {
        agrees(&black, &white, percentage);
        agrees(&white, &black, percentage);
        agrees(&white, &white, percentage);
    }
}

#[test]
fn interpolation_past_the_ends_is_narrowed_not_refused() {
    let dark = Color::new(100, 100, 100);
    let light = Color::new(200, 200, 200);
    let beyond = dark.interpolate(&light, 300.0f32.to_bits());
    assert_eq!((beyond.red, beyond.green, beyond.blue), (255, 255, 255));
    let before = dark.interpolate(&light, (-300.0f32).to_bits());
    assert_eq!((before.red, before.green, before.blue), (0, 0, 0));
    let past = dark.interpolate(&light, 110.0f32.to_bits());
    assert_eq!((past.red, past.green, past.blue), (210, 210, 210));
    assert_eq!(past.alpha, ONE);
}

#[test]
fn interpolation_blends_the_opacity() {
    let clear = Color::with_alpha(0, 0, 0, 0.0f32.to_bits());
    let solid = Color::new(0, 0, 0);
    assert_eq!(
        f32::from_bits(clear.interpolate(&solid, 50.0f32.to_bits()).alpha),
        0.5
    );
    assert_eq!(
        f32::from_bits(clear.interpolate(&solid, 25.0f32.to_bits()).alpha),
        0.25
    );
    assert_eq!(
        f32::from_bits(clear.interpolate(&solid, 250.0f32.to_bits()).alpha),
        1.0
    );
    assert_eq!(
        f32::from_bits(solid.interpolate(&clear, 250.0f32.to_bits()).alpha),
        0.0
    );
}
