use lib::text::{
    chars_of, is_whitespace, parse_i64, to_upper, trim_range, write_dec_i64, write_dec_u64,
    write_hex_padded, IntErrorKind,
};

fn std_kind(e: &std::num::ParseIntError) -> IntErrorKind {
    match e.kind() {
        std::num::IntErrorKind::Empty => IntErrorKind::Empty,
        std::num::IntErrorKind::InvalidDigit => IntErrorKind::InvalidDigit,
        std::num::IntErrorKind::PosOverflow => IntErrorKind::PosOverflow,
        std::num::IntErrorKind::NegOverflow => IntErrorKind::NegOverflow,
        _ => panic!("unexpected kind"),
    }
}

#[test]
fn whitespace_matches_char_is_whitespace() {
    for u in 0u32..=0x10FFFF {
        if let Some(c) = char::from_u32(u) {
            assert_eq!(is_whitespace(c), c.is_whitespace(), "{:X}", u);
        }
    }
}

#[test]
fn upper_matches_to_ascii_uppercase() {
    for u in 0u32..0x3000 {
        if let Some(c) = char::from_u32(u) {
            assert_eq!(to_upper(c), c.to_ascii_uppercase());
        }
    }
}

#[test]
fn parse_matches_str_parse() {
    let cases = [
        "", "+", "-", "0", "-0", "+0", "7", "-42", "+17", "00012", "1_000", " 1", "1 ", "x",
        "9223372036854775807", "9223372036854775808", "-9223372036854775808",
        "-9223372036854775809", "99999999999999999999", "99999999999999999999x",
        "-99999999999999999999x", "12x99999999999999999999", "+-5", "--5", "١٢", "é",
        "123456789012345", "1234567890123456789", "12345678901234567890",
    ];
    for s in cases.iter() {
        let v = chars_of(s);
        let ours = parse_i64(&v, 0, v.len());
        let theirs = s.parse::<i64>().map_err(|e| std_kind(&e));
        assert_eq!(ours, theirs, "for {:?}", s);
    }
}

#[test]
fn decimal_and_hex_formatting() {
    for n in [0i64, 1, -1, 9, 10, -10, 12345, i64::MAX, i64::MIN].iter() {
        let mut s = String::new();
        write_dec_i64(&mut s, *n);
        assert_eq!(s, format!("{}", n));
    }
    let mut s = String::from("x");
    write_dec_u64(&mut s, u64::MAX);
    assert_eq!(s, format!("x{}", u64::MAX));
    for (n, w) in [(0u64, 4usize), (10, 4), (0x2400, 4), (0x12345, 4), (0xEE, 2), (7, 2), (u64::MAX, 0)].iter() {
        let mut s = String::new();
        write_hex_padded(&mut s, *n, *w);
        assert_eq!(s, format!("{:0w$X}", n, w = *w));
    }
}

#[test]
fn trim_range_matches_str_trim() {
    for s in ["", "   ", " a ", "\ta b\u{3000}", "x", "\u{85}y\u{2028}"].iter() {
        let v = chars_of(s);
        let (a, b) = trim_range(&v, 0, v.len());
        let got: String = v[a..b].iter().collect();
        assert_eq!(got, s.trim());
    }
}
