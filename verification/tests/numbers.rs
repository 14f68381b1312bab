//! Decimal and floating-point numbers as text, held against std.

use iot_mock::float::{FloatKind, Reading};
use iot_mock::natural::Natural;
use iot_mock::text::{
    dec_int_text, dec_text, hex_bytes_text, hex_digit_value, hex_words_text, is_whitespace,
    parse_signed, parse_unsigned, push_dec_padded, trimmed,
};

/// A reproducible sequence of numbers.
fn sequence(seed: u64, n: usize) -> Vec<u64> {
    let mut x = seed;
    let mut out = Vec::new();
    for _ in 0..n {
        x = x
            .wrapping_mul(6_364_136_223_846_793_005)
            .wrapping_add(1_442_695_040_888_963_407);
        out.push(x ^ (x >> 29));
    }
    out
}

#[test]
fn white_space_is_that_of_unicode() {
    for c in '\0'..=char::MAX {
        assert_eq!(is_whitespace(c), c.is_whitespace(), "{:?}", c);
    }
}

#[test]
fn trimming_takes_white_space_off_both_ends() {
    let cut: String = trimmed("\u{3000} \t a b\u{a0}\n").into_iter().collect();
    assert_eq!(cut, "a b");
    assert!(trimmed("  ").is_empty());
}

#[test]
fn hex_digits_have_their_values() {
    for c in '\0'..='\u{ff}' {
        assert_eq!(hex_digit_value(c).map(|d| d as u32), c.to_digit(16), "{:?}", c);
    }
}

#[test]
fn decimal_numerals_match_std() {
    for v in [0u64, 7, 9, 10, 99, 100, 65535, 4294967295, u64::MAX] {
        assert_eq!(dec_text(v), v.to_string());
    }
    for v in [0i64, -1, 1, -10, i64::MIN, i64::MAX, -98765432109876543] {
        assert_eq!(dec_int_text(v), v.to_string());
    }
    let mut s = String::from("HR_");
    push_dec_padded(&mut s, 7, 4);
    push_dec_padded(&mut s, 12345, 4);
    assert_eq!(s, "HR_000712345");
}

#[test]
fn hexadecimal_lists_are_upper_case() {
    assert_eq!(hex_bytes_text(&[0x00, 0x0a, 0xff]), "00 0A FF");
    assert_eq!(hex_words_text(&[0x12ab, 0x0001]), "12AB 0001");
    assert_eq!(hex_bytes_text(&[]), "");
}

#[test]
fn integers_parse_as_in_std() {
    let texts = [
        "0", "-0", "+0", "1", "-1", "+1", "65535", "65536", "-32768", "-32769", "32767", "32768", "",
        "+", "-", " 12 ", "1 2", "0x10", "007", "12a", "４", "18446744073709551615",
        "18446744073709551616", "9223372036854775807", "-9223372036854775808",
        "-9223372036854775809", "99999999999999999999999999", "--1", "+-1",
    ];
    for t in texts {
        assert_eq!(parse_unsigned(t, 0xFFFF), t.trim().parse::<u16>().ok().map(|v| v as u64), "{t}");
        assert_eq!(parse_unsigned(t, u64::MAX), t.trim().parse::<u64>().ok(), "{t}");
        assert_eq!(parse_signed(t, 0x7FFF), t.trim().parse::<i16>().ok().map(|v| v as i64), "{t}");
        assert_eq!(parse_signed(t, i64::MAX), t.trim().parse::<i64>().ok(), "{t}");
    }
}

fn single(text: &str) -> Reading {
    match text.trim().parse::<f32>() {
        Err(_) => Reading::Invalid,
        Ok(v) if !v.is_finite() => Reading::NotFinite,
        Ok(v) => Reading::Bits(v.to_bits() as u64),
    }
}

fn double(text: &str) -> Reading {
    match text.trim().parse::<f64>() {
        Err(_) => Reading::Invalid,
        Ok(v) if !v.is_finite() => Reading::NotFinite,
        Ok(v) => Reading::Bits(v.to_bits()),
    }
}

#[test]
fn floats_read_as_in_std() {
    let texts = [
        "0", "-0", "+0", "1", "-1", "+1", "2.5", "3.14159", "1.", ".5", ".", "", "-", "+", "e5", "1e",
        "1e+", "1e5", "1E-5", "1e+5", "-.5e-3", "1..2", "1.2.3", "12.5x", "abc", "inf", "-inf",
        "+Infinity", "NaN", "nan", "-nan", "infinit", "1e38", "1e39", "3.4028235e38", "3.4028236e38",
        "3.40282357e38", "1e308", "1e309", "1.7976931348623157e308", "1.7976931348623159e308",
        "4.9e-324", "2.4703282292062327e-324", "2.4703282292062328e-324", "1e-400", "1e-50",
        "1.401298464324817e-45", "7.006492321624085e-46", "7.006492321624086e-46", "16777217",
        "16777216", "16777218.000000001", "9007199254740993", "0.1", "0.3", " 2.5 ", "1 2",
        "1e99999999999999999999999999", "0e99999999999999999999999999",
        "1e-99999999999999999999999999", "123456789012345678901234567890", "0.000001", "1_000",
        "2097152.25", "1e23", "8.5e22", "1.00000005960464477539062500", "1.00000005960464477539062501",
    ];
    for t in texts {
        assert_eq!(FloatKind::Single.read(t), single(t), "{t}");
        assert_eq!(FloatKind::Double.read(t), double(t), "{t}");
    }
}

#[test]
fn singles_write_and_read_as_in_std() {
    let mut patterns: Vec<u32> = vec![
        0, 1, 2, 3, 0x007F_FFFF, 0x0080_0000, 0x0080_0001, 0x3F80_0000, 0x3F80_0001, 0x4020_0000,
        0x7F7F_FFFF, 0x7F80_0000, 0x7F80_0001, 0x7FC0_0000, 0x8000_0000, 0x8000_0001, 0xBF80_0000,
        0xFF7F_FFFF, 0xFF80_0000, 0xFFC0_0000, 0x4B80_0000, 0x4B7F_FFFF, 0x4A00_0001,
    ];
    for x in sequence(1, 1500) {
        patterns.push(x as u32);
    }
    for e in 0..255u32 {
        patterns.push(e << 23);
        patterns.push((e << 23) + 1);
        patterns.push((e << 23) | 0x007F_FFFF);
    }
    for bits in patterns {
        let v = f32::from_bits(bits);
        let text = FloatKind::Single.write(bits as u64);
        assert_eq!(text, v.to_string(), "{bits:#x}");
        if v.is_finite() {
            assert_eq!(FloatKind::Single.read(&text), Reading::Bits(bits as u64));
        }
    }
}

#[test]
fn doubles_write_and_read_as_in_std() {
    let mut patterns: Vec<u64> = vec![
        0, 1, 2, 3, 0x000F_FFFF_FFFF_FFFF, 0x0010_0000_0000_0000, 0x3FF0_0000_0000_0000,
        0x3FF0_0000_0000_0001, 0x4004_0000_0000_0000, 0x7FEF_FFFF_FFFF_FFFF, 0x7FF0_0000_0000_0000,
        0x7FF8_0000_0000_0000, 0x8000_0000_0000_0000, 0x8000_0000_0000_0001, 0xFFF0_0000_0000_0000,
        0xFFF8_0000_0000_0000, 0x4340_0000_0000_0000, 0x433F_FFFF_FFFF_FFFF,
    ];
    patterns.push(5e-324f64.to_bits());
    patterns.push(1e23f64.to_bits());
    patterns.push(3.14159f64.to_bits());
    patterns.push(f64::MIN_POSITIVE.to_bits());
    for x in sequence(2, 120) {
        patterns.push(x);
    }
    for bits in patterns {
        let v = f64::from_bits(bits);
        let text = FloatKind::Double.write(bits);
        assert_eq!(text, v.to_string(), "{bits:#x}");
        if v.is_finite() {
            assert_eq!(FloatKind::Double.read(&text), Reading::Bits(bits));
        }
    }
}

#[test]
fn a_tie_between_two_shortest_decimals_goes_up() {
    // 2097152.25 lies halfway between 2097152.2 and 2097152.3, which both read
    // back as it.
    let bits = 2097152.25f32.to_bits();
    assert_eq!(FloatKind::Single.write(bits as u64), 2097152.25f32.to_string());
    assert_eq!(FloatKind::Single.write(bits as u64), "2097152.3");
}

#[test]
fn ranges_of_floats_match_std() {
    let values = [
        0.0f32, -0.0, 0.1, 1.0, 9999.999, 10000.0, 10000.001, 65536.0, 1e30, -1.0, -1e-40, 1e-40,
        f32::INFINITY, f32::NEG_INFINITY, f32::NAN,
    ];
    for v in values {
        for max in [0u64, 1, 9999, 10000, u64::MAX] {
            let want = v >= 0.0 && v as f64 <= max as f64 && v.is_finite();
            assert_eq!(FloatKind::Single.is_within(v.to_bits() as u64, max), want, "{v} {max}");
            let d = v as f64;
            assert_eq!(FloatKind::Double.is_within(d.to_bits(), max), want, "{v} {max}");
        }
    }
}

#[test]
fn naturals_compare_after_scaling() {
    let mut a = Natural::from_u64(10);
    a.mul_pow10(30);
    let mut b = Natural::from_u64(1);
    b.mul_pow10(31);
    assert!(a.at_most(&b) && b.at_most(&a));
    let mut c = b.copy();
    c.mul_add(1, 1);
    assert!(b.at_most(&c) && !c.at_most(&b));
    let mut d = Natural::from_u64(3);
    d.mul_pow2(70);
    let mut e = Natural::from_u64(3 << 20);
    e.mul_pow2(50);
    assert!(d.at_most(&e) && e.at_most(&d));
    e.mul(0);
    assert!(e.at_most(&Natural::from_u64(0)));
}
