use std::num::IntErrorKind;

use brightctl::number::{decimal_text, is_whitespace_char, read_brightness, ParseError};

fn std_read(contents: &str) -> Result<u16, ParseError> {
    contents.trim().parse::<u16>().map_err(|e| match e.kind() {
        IntErrorKind::Empty => ParseError::Empty,
        IntErrorKind::InvalidDigit => ParseError::InvalidDigit,
        IntErrorKind::PosOverflow => ParseError::Overflow,
        other => panic!("a kind that no unsigned number gives: {other:?}"),
    })
}

#[test]
fn reads_what_a_device_file_holds() {
    assert_eq!(read_brightness("0\n"), Ok(0));
    assert_eq!(read_brightness("255\n"), Ok(255));
    assert_eq!(read_brightness("96000"), Err(ParseError::Overflow));
    assert_eq!(read_brightness("65535"), Ok(65535));
    assert_eq!(read_brightness("65536"), Err(ParseError::Overflow));
    assert_eq!(read_brightness("  \t120 \r\n"), Ok(120));
    assert_eq!(read_brightness("+7"), Ok(7));
    assert_eq!(read_brightness("007"), Ok(7));
    assert_eq!(read_brightness("0000000000065535"), Ok(65535));
}

#[test]
fn reads_no_number() {
    assert_eq!(read_brightness(""), Err(ParseError::Empty));
    assert_eq!(read_brightness(" \n\t"), Err(ParseError::Empty));
    assert_eq!(read_brightness("+"), Err(ParseError::InvalidDigit));
    assert_eq!(read_brightness("-"), Err(ParseError::InvalidDigit));
    assert_eq!(read_brightness("-1"), Err(ParseError::InvalidDigit));
    assert_eq!(read_brightness("-0"), Err(ParseError::InvalidDigit));
    assert_eq!(read_brightness("12 34"), Err(ParseError::InvalidDigit));
    assert_eq!(read_brightness("12a"), Err(ParseError::InvalidDigit));
    assert_eq!(read_brightness("++1"), Err(ParseError::InvalidDigit));
    assert_eq!(read_brightness("1.5"), Err(ParseError::InvalidDigit));
    assert_eq!(read_brightness("١٢"), Err(ParseError::InvalidDigit));
}

#[test]
fn reports_what_comes_first_from_the_left() {
    assert_eq!(read_brightness("65536x"), Err(ParseError::Overflow));
    assert_eq!(read_brightness("6553x6"), Err(ParseError::InvalidDigit));
    assert_eq!(read_brightness("65535x"), Err(ParseError::InvalidDigit));
    assert_eq!(read_brightness("99999999999999999999999"), Err(ParseError::Overflow));
    assert_eq!(read_brightness("x99999"), Err(ParseError::InvalidDigit));
}

#[test]
fn white_space_around_a_number_is_unicode_white_space() {
    assert_eq!(read_brightness("\u{a0}12\u{3000}"), Ok(12));
    assert_eq!(read_brightness("\u{2003}12\u{85}"), Ok(12));
    assert_eq!(read_brightness("\u{200b}12"), Err(ParseError::InvalidDigit));
}

#[test]
fn reading_agrees_with_std() {
    let alphabet = ['0', '1', '5', '6', '9', '+', '-', ' ', '\n', 'x'];
    let mut last = vec![String::new()];
    assert_eq!(read_brightness(""), std_read(""));
    for _ in 0..5 {
        let mut next = Vec::new();
        for text in &last {
            for c in alphabet {
                let mut longer = text.clone();
                longer.push(c);
                assert_eq!(read_brightness(&longer), std_read(&longer), "reading {longer:?}");
                next.push(longer);
            }
        }
        last = next;
    }
}

#[test]
fn reading_agrees_with_std_near_the_limit() {
    for n in 65000u32..70000 {
        let text = n.to_string();
        assert_eq!(read_brightness(&text), std_read(&text));
        let longer = format!("{text}0");
        assert_eq!(read_brightness(&longer), std_read(&longer));
        let signed = format!("+{text}\n");
        assert_eq!(read_brightness(&signed), std_read(&signed));
    }
}

#[test]
fn white_space_agrees_with_std() {
    for code in 0..=0x10ffffu32 {
        if let Some(c) = char::from_u32(code) {
            assert_eq!(is_whitespace_char(c), c.is_whitespace(), "for U+{code:04X}");
        }
    }
}

#[test]
fn writes_decimal_digits() {
    assert_eq!(decimal_text(0), "0");
    assert_eq!(decimal_text(7), "7");
    assert_eq!(decimal_text(10), "10");
    assert_eq!(decimal_text(255), "255");
    assert_eq!(decimal_text(65535), "65535");
    assert_eq!(decimal_text(4294967295), "4294967295");
}

#[test]
fn what_is_written_reads_back() {
    for n in 0..=u16::MAX {
        let text = decimal_text(n as u32);
        assert_eq!(text, n.to_string());
        assert_eq!(read_brightness(&text), Ok(n));
    }
}
