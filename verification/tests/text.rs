use calculator::text::is_digit;
use calculator::{decimal, parse_int};

fn parse(text: &str) -> Option<i32> {
    parse_int(&String::from(text))
}

#[test]
fn parse_int_reads_plain_digits() {
    assert_eq!(parse("0"), Some(0));
    assert_eq!(parse("7"), Some(7));
    assert_eq!(parse("42"), Some(42));
    assert_eq!(parse("1234567890"), Some(1234567890));
}

#[test]
fn parse_int_keeps_leading_zeros_harmless() {
    assert_eq!(parse("007"), Some(7));
    assert_eq!(parse("0000000000000000000012"), Some(12));
}

#[test]
fn parse_int_takes_a_sign() {
    assert_eq!(parse("+5"), Some(5));
    assert_eq!(parse("-5"), Some(-5));
    assert_eq!(parse("-0"), Some(0));
}

#[test]
fn parse_int_reaches_both_bounds() {
    assert_eq!(parse("2147483647"), Some(i32::MAX));
    assert_eq!(parse("-2147483648"), Some(i32::MIN));
}

#[test]
fn parse_int_refuses_what_does_not_fit() {
    assert_eq!(parse("2147483648"), None);
    assert_eq!(parse("-2147483649"), None);
    assert_eq!(parse("99999999999999999999999999"), None);
}

#[test]
fn parse_int_refuses_what_is_no_number() {
    assert_eq!(parse(""), None);
    assert_eq!(parse("+"), None);
    assert_eq!(parse("-"), None);
    assert_eq!(parse("1a"), None);
    assert_eq!(parse(" 1"), None);
    assert_eq!(parse("1 "), None);
    assert_eq!(parse("--1"), None);
    assert_eq!(parse("1.5"), None);
    assert_eq!(parse("\u{663}"), None);
}

#[test]
fn parse_int_agrees_with_the_standard_parser() {
    for text in ["0", "12", "+12", "-12", "", "-", "2147483647", "2147483648", "-2147483648", "x1", "1x"] {
        assert_eq!(parse(text), text.parse::<i32>().ok());
    }
}

#[test]
fn decimal_writes_integers() {
    assert_eq!(decimal(0), "0");
    assert_eq!(decimal(7), "7");
    assert_eq!(decimal(10), "10");
    assert_eq!(decimal(1024), "1024");
    assert_eq!(decimal(-7), "-7");
    assert_eq!(decimal(i32::MAX), "2147483647");
    assert_eq!(decimal(i32::MIN), "-2147483648");
}

#[test]
fn decimal_agrees_with_the_standard_format() {
    for v in [0, 1, -1, 9, 10, 99, 100, 101, -100, 65535, i32::MAX, i32::MIN] {
        assert_eq!(decimal(v), format!("{}", v));
    }
}

#[test]
fn decimal_then_parse_gives_the_number_back() {
    for v in [0, 1, -1, 5, 19, 120, -4096, 2147483646, i32::MAX, i32::MIN] {
        assert_eq!(parse_int(&decimal(v)), Some(v));
    }
}

#[test]
fn is_digit_knows_the_ten_digits_only() {
    for c in ['0', '1', '5', '9'] {
        assert!(is_digit(c));
    }
    for c in ['/', ':', 'a', ' ', '.', '-', '\u{663}'] {
        assert!(!is_digit(c));
    }
}
