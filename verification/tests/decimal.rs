use fatpdf::decimal::{parse_i32, push_decimal};

fn parse(s: &str) -> Option<i32> {
    let chars: Vec<char> = s.chars().collect();
    parse_i32(&chars, 0, chars.len())
}

fn text(n: i32) -> String {
    let mut out = String::new();
    push_decimal(&mut out, n);
    out
}

#[test]
fn parse_plain_numbers() {
    assert_eq!(parse("0"), Some(0));
    assert_eq!(parse("12"), Some(12));
    assert_eq!(parse("007"), Some(7));
    assert_eq!(parse("2147483647"), Some(i32::MAX));
}

#[test]
fn parse_signed_numbers() {
    assert_eq!(parse("-5"), Some(-5));
    assert_eq!(parse("+7"), Some(7));
    assert_eq!(parse("-0"), Some(0));
    assert_eq!(parse("-2147483648"), Some(i32::MIN));
}

#[test]
fn parse_rejects_what_is_no_number() {
    assert_eq!(parse(""), None);
    assert_eq!(parse("+"), None);
    assert_eq!(parse("-"), None);
    assert_eq!(parse("abc"), None);
    assert_eq!(parse("12a"), None);
    assert_eq!(parse("1 "), None);
    assert_eq!(parse(" 1"), None);
    assert_eq!(parse("--1"), None);
    assert_eq!(parse("+-1"), None);
    assert_eq!(parse("1.5"), None);
    assert_eq!(parse("\u{0663}"), None);
}

#[test]
fn parse_rejects_what_does_not_fit() {
    assert_eq!(parse("2147483648"), None);
    assert_eq!(parse("-2147483649"), None);
    assert_eq!(parse("99999999999999999999999999"), None);
    assert_eq!(parse("-99999999999999999999999999"), None);
}

#[test]
fn parse_agrees_with_the_standard_library() {
    let samples = [
        "", "0", "1", "-1", "+1", "10", "0010", "+0010", "-0010", "2147483647", "2147483648",
        "-2147483648", "-2147483649", "4294967296", "x", "1x", "x1", "+", "-", "++1", "1+", "1-1",
        "12 ", "１２", "1_000", "0x10", "9223372036854775808",
    ];
    for s in samples {
        assert_eq!(parse(s), s.parse::<i32>().ok(), "input {:?}", s);
    }
}

#[test]
fn parse_reads_a_part_of_the_line() {
    let chars: Vec<char> = "ab 42 cd".chars().collect();
    assert_eq!(parse_i32(&chars, 3, 5), Some(42));
    assert_eq!(parse_i32(&chars, 3, 6), None);
    assert_eq!(parse_i32(&chars, 3, 3), None);
    assert_eq!(parse_i32(&chars, 4, 5), Some(2));
}

#[test]
fn text_of_numbers() {
    assert_eq!(text(0), "0");
    assert_eq!(text(7), "7");
    assert_eq!(text(-7), "-7");
    assert_eq!(text(10), "10");
    assert_eq!(text(1000), "1000");
    assert_eq!(text(i32::MAX), "2147483647");
    assert_eq!(text(i32::MIN), "-2147483648");
}

#[test]
fn text_is_appended() {
    let mut out = String::from("n=");
    push_decimal(&mut out, 12);
    push_decimal(&mut out, -3);
    assert_eq!(out, "n=12-3");
}

#[test]
fn text_reads_back_as_the_number() {
    for n in [0, 1, -1, 9, 10, 99, 100, 12345, -12345, i32::MAX, i32::MIN, i32::MAX - 1, i32::MIN + 1] {
        assert_eq!(text(n), n.to_string());
        assert_eq!(parse(&text(n)), Some(n));
    }
}
