use rustint::binary32::decimal::parse_number;

/// What std reads, as a bit pattern; a NaN as the one NaN of the library.
fn theirs(text: &str) -> Option<u32> {
    text.parse::<f32>().ok().map(|value| {
        if value.is_nan() {
            0x7FC0_0000
        } else {
            value.to_bits()
        }
    })
}

fn agrees(text: &str) {
    assert_eq!(parse_number(text), theirs(text), "{text:?}");
}

struct Patterns(u64);

impl Patterns {
    fn next(&mut self) -> u32 {
        self.0 ^= self.0 << 13;
        self.0 ^= self.0 >> 7;
        self.0 ^= self.0 << 17;
        (self.0 >> 16) as u32
    }
}

#[test]
fn numbers_are_read_as_written() {
    assert_eq!(parse_number("0"), Some(0.0f32.to_bits()));
    assert_eq!(parse_number("1"), Some(1.0f32.to_bits()));
    assert_eq!(parse_number("255"), Some(255.0f32.to_bits()));
    assert_eq!(parse_number("0.5"), Some(0.5f32.to_bits()));
    assert_eq!(parse_number("0.8"), Some(0.8f32.to_bits()));
    assert_eq!(parse_number("-1"), Some((-1.0f32).to_bits()));
    assert_eq!(parse_number("+1.5"), Some(1.5f32.to_bits()));
    assert_eq!(parse_number("2.5e2"), Some(250.0f32.to_bits()));
    assert_eq!(parse_number("2.5E-1"), Some(0.25f32.to_bits()));
    assert_eq!(parse_number("-0"), Some((-0.0f32).to_bits()));
    assert_eq!(parse_number("inf"), Some(f32::INFINITY.to_bits()));
    assert_eq!(parse_number("-Infinity"), Some(f32::NEG_INFINITY.to_bits()));
    assert_eq!(parse_number("NaN"), Some(0x7FC0_0000));
    assert_eq!(parse_number(""), None);
    assert_eq!(parse_number("a"), None);
    assert_eq!(parse_number(" 1"), None);
}

#[test]
fn the_grammar_is_that_of_decimal_numbers() {
    for text in [
        "", "+", "-", ".", "+.", "-.", "e", "e5", ".e5", "+e5", "1e", "1e+", "1e-", "1.e", "1.5e",
        "5.", ".5", "+.5", "-.5", "5.e3", ".5e3", "5.e+3", ".5E-3", "1e5", "1E5", "1e+5", "1e-5",
        "1e05", "1e+05", "01", "001.100", "1.2.3", "1..2", "1e5.5", "1e5e5", "--1", "++1", "+-1",
        "-+1", "1-", "1+", "1 ", " 1", "1 2", "1,2", "1_000", "0x10", "0b1", "1f", "1.0f32", "1L",
        "١", "１", "1\u{0}", "inf", "INF", "Inf", "iNf", "+inf", "-inf", "infinity", "INFINITY",
        "Infinity", "+infinity", "-InFiNiTy", "infinit", "infinityy", "in", "i", "inf ", "nan",
        "NaN", "NAN", "+nan", "-nan", "nan0", "nann", "na", "n", "- inf", "+ 1", "1e 5", "1 e5",
        "0", "-0", "+0", "0.0", "-0.0", "0e0", "0e99999", "0e-99999", "-0e99999", "00000",
        ".00000", "00000.", "0000.0000e0000",
    ] {
        agrees(text);
    }
}

#[test]
fn exponents_of_any_size_are_read() {
    for text in [
        "1e38", "1e39", "3.4028234e38", "3.4028235e38", "3.4028236e38", "3.40282356e38",
        "3.40282357e38", "340282346638528859811704183484516925440",
        "340282356779733661637539395458142568447", "340282356779733661637539395458142568448",
        "340282356779733661637539395458142568449", "1e-45", "1.4e-45", "0.7e-45", "0.8e-45",
        "7.006492321624085e-46", "7.006492321624086e-46", "7.0064923216240853e-46",
        "7.0064923216240854e-46", "1e-46", "1e-47", "1.17549435e-38", "1.17549421e-38",
        "1.1754943e-38", "1.1754942e-38", "1e100", "1e-100", "1e1000", "1e-1000",
        "1e4294967296", "1e-4294967296", "1e18446744073709551616", "1e-18446744073709551616",
        "1e340282366920938463463374607431768211456",
        "1e-340282366920938463463374607431768211456",
        "0e340282366920938463463374607431768211456",
        "-1e99999999999999999999999999999999999999999999",
        "-1e-99999999999999999999999999999999999999999999",
        "0.000000000000000000000000000000000000000000001e84",
        "1000000000000000000000000000000000000000000000e-84",
        "100000000000000000000000000000000000000e-40",
        "0.0000000000000000000000000000000000000000000001e46",
    ] {
        agrees(text);
    }
}

#[test]
fn many_digits_are_read_to_the_last() {
    let mut halfway = String::from("1.00000005960464477539062");
    agrees(&halfway);
    halfway.push('5');
    agrees(&halfway);
    for _ in 0..200 {
        halfway.push('0');
    }
    agrees(&halfway);
    halfway.push('1');
    agrees(&halfway);
    let mut below = String::from("1.000000059604644775390624");
    for _ in 0..300 {
        below.push('9');
    }
    agrees(&below);
    let mut long = String::from("0.");
    for _ in 0..2_000 {
        long.push('3');
    }
    agrees(&long);
    let mut zeros = String::new();
    for _ in 0..1_000 {
        zeros.push('0');
    }
    agrees(&format!("{zeros}1{zeros}.{zeros}1e-990"));
    agrees(&format!("0.{zeros}1e1000"));
    agrees(&format!("0.{zeros}1e1001"));
    agrees(&format!("1{zeros}e-1000"));
    agrees(&format!("1{zeros}e-961"));
}

#[test]
fn every_kind_of_number_is_read_back_from_its_decimal() {
    let mut patterns = Patterns(0x243F_6A88_85A3_08D3);
    for _ in 0..30_000 {
        let bits = patterns.next();
        let value = f32::from_bits(bits);
        if value.is_nan() {
            continue;
        }
        let shortest = format!("{value}");
        assert_eq!(parse_number(&shortest), Some(bits), "{shortest}");
        let scientific = format!("{value:e}");
        assert_eq!(parse_number(&scientific), Some(bits), "{scientific}");
        let upper = format!("{value:E}");
        assert_eq!(parse_number(&upper), Some(bits), "{upper}");
    }
}

#[test]
fn numbers_halfway_between_two_are_rounded_to_the_even_one() {
    // the exact decimal of the middle between two neighbours, a little less, and a
    // little more
    let mut patterns = Patterns(0x1319_8A2E_0370_7344);
    for _ in 0..3_000 {
        let bits = (patterns.next() % 0x7F00_0000).max(1);
        let low = f32::from_bits(bits) as f64;
        let high = f32::from_bits(bits + 1) as f64;
        let middle = (low + high) / 2.0;
        let exact = format!("{middle:.400e}");
        agrees(&exact);
        let (digits, exponent) = exact.split_once('e').unwrap();
        let digits = digits.trim_end_matches('0');
        agrees(&format!("{digits}e{exponent}"));
        agrees(&format!("{digits}0000000000000000000000000000001e{exponent}"));
        let mut less = digits.to_string();
        let last = less.pop().unwrap();
        let lowered = char::from_digit(last.to_digit(10).unwrap() - 1, 10).unwrap();
        agrees(&format!("{less}{lowered}99999999999999999999999999999e{exponent}"));
    }
}

#[test]
fn decimals_of_a_few_digits_are_read_as_std_reads_them() {
    let mut patterns = Patterns(0xA409_3822_299F_31D0);
    for _ in 0..60_000 {
        let digits = patterns.next() % 1_000_000_000;
        let exponent = (patterns.next() % 110) as i32 - 65;
        let sign = ["", "-", "+"][(patterns.next() % 3) as usize];
        agrees(&format!("{sign}{digits}e{exponent}"));
        let places = patterns.next() % 12;
        let text = format!("{digits:012}");
        let (whole, fraction) = text.split_at(12 - places as usize);
        agrees(&format!("{sign}{whole}.{fraction}"));
        agrees(&format!("{sign}{whole}.{fraction}E{exponent}"));
    }
}

#[test]
fn texts_of_any_characters_are_read_as_std_reads_them() {
    let alphabet: Vec<char> = "0123456789+-.eEinfatyNIAF x".chars().collect();
    let mut patterns = Patterns(0x082E_FA98_EC4E_6C89);
    for _ in 0..200_000 {
        let length = patterns.next() % 9;
        let text: String = (0..length)
            .map(|_| alphabet[(patterns.next() as usize) % alphabet.len()])
            .collect();
        agrees(&text);
    }
}
