use get_bicho::parse::{is_whitespace_char, parse_i32, parse_u32, split_ranges, trim_range};
use get_bicho::text::{
    chars_of, push_decimal, push_signed_decimal, push_zero_padded, same_text, string_of,
};

fn decimal(n: u64) -> String {
    let mut out = Vec::new();
    push_decimal(&mut out, n);
    string_of(&out)
}

fn signed(v: i64) -> String {
    let mut out = Vec::new();
    push_signed_decimal(&mut out, v);
    string_of(&out)
}

fn padded(n: u64, width: usize) -> String {
    let mut out = Vec::new();
    push_zero_padded(&mut out, n, width);
    string_of(&out)
}

#[test]
fn chars_and_back() {
    let chars = chars_of("Goiás 10h");
    assert_eq!(chars.len(), 9);
    assert_eq!(string_of(&chars), "Goiás 10h");
}

#[test]
fn same_text_compares_characters() {
    assert!(same_text("10h", "10h"));
    assert!(!same_text("10h", "10H"));
    assert!(!same_text("", "a"));
}

#[test]
fn decimal_writes_the_shortest_form() {
    assert_eq!(decimal(0), "0");
    assert_eq!(decimal(7), "7");
    assert_eq!(decimal(10), "10");
    assert_eq!(decimal(4294967295), "4294967295");
    assert_eq!(decimal(u64::MAX), "18446744073709551615");
}

#[test]
fn signed_decimal_puts_a_minus_in_front() {
    assert_eq!(signed(0), "0");
    assert_eq!(signed(-1), "-1");
    assert_eq!(signed(300), "300");
    assert_eq!(signed(i64::MIN), "-9223372036854775808");
    assert_eq!(signed(i64::MAX), "9223372036854775807");
}

#[test]
fn zero_padding_fills_up_to_the_width() {
    assert_eq!(padded(5, 2), "05");
    assert_eq!(padded(12, 2), "12");
    assert_eq!(padded(123, 2), "123");
    assert_eq!(padded(0, 4), "0000");
    assert_eq!(padded(7, 0), "7");
}

#[test]
fn parse_u32_accepts_digits_and_a_plus() {
    assert_eq!(parse_u32("0"), Some(0));
    assert_eq!(parse_u32("23"), Some(23));
    assert_eq!(parse_u32("+23"), Some(23));
    assert_eq!(parse_u32("007"), Some(7));
    assert_eq!(parse_u32("4294967295"), Some(u32::MAX));
    assert_eq!(parse_u32("00000000000000000000004294967295"), Some(u32::MAX));
}

#[test]
fn parse_u32_refuses_everything_else() {
    assert_eq!(parse_u32(""), None);
    assert_eq!(parse_u32("+"), None);
    assert_eq!(parse_u32("-1"), None);
    assert_eq!(parse_u32(" 1"), None);
    assert_eq!(parse_u32("1 "), None);
    assert_eq!(parse_u32("1_000"), None);
    assert_eq!(parse_u32("12a"), None);
    assert_eq!(parse_u32("4294967296"), None);
    assert_eq!(parse_u32("99999999999999999999999999"), None);
    assert_eq!(parse_u32("٣"), None);
}

#[test]
fn parse_i32_accepts_either_sign() {
    assert_eq!(parse_i32("1"), Some(1));
    assert_eq!(parse_i32("+1"), Some(1));
    assert_eq!(parse_i32("-1"), Some(-1));
    assert_eq!(parse_i32("-0"), Some(0));
    assert_eq!(parse_i32("2147483647"), Some(i32::MAX));
    assert_eq!(parse_i32("-2147483648"), Some(i32::MIN));
    assert_eq!(parse_i32("999"), Some(999));
}

#[test]
fn parse_i32_refuses_everything_else() {
    assert_eq!(parse_i32(""), None);
    assert_eq!(parse_i32("-"), None);
    assert_eq!(parse_i32("+"), None);
    assert_eq!(parse_i32("--1"), None);
    assert_eq!(parse_i32("+-1"), None);
    assert_eq!(parse_i32("1º"), None);
    assert_eq!(parse_i32("2147483648"), None);
    assert_eq!(parse_i32("-2147483649"), None);
    assert_eq!(parse_i32("1.0"), None);
}

#[test]
fn parse_agrees_with_std() {
    for text in ["", "+", "-", "0", "-0", "+0", "12", "-12", "+12", "1 2", "2147483648", "x"] {
        assert_eq!(parse_i32(text), text.parse::<i32>().ok());
        assert_eq!(parse_u32(text), text.parse::<u32>().ok());
    }
}

#[test]
fn whitespace_is_what_std_calls_whitespace() {
    let mut code: u32 = 0;
    while code <= 0x10ffff {
        if let Some(c) = char::from_u32(code) {
            assert_eq!(is_whitespace_char(c), c.is_whitespace());
        }
        code += 1;
    }
}

#[test]
fn trim_range_leaves_out_white_space_at_both_ends() {
    let chars = chars_of("  \t 23 \u{a0}\n");
    assert_eq!(trim_range(&chars, 0, chars.len()), (4, 6));
    let blank = chars_of("   ");
    let (a, b) = trim_range(&blank, 0, blank.len());
    assert_eq!(a, b);
    let inner = chars_of("a b");
    assert_eq!(trim_range(&inner, 0, inner.len()), (0, 3));
    assert_eq!(trim_range(&inner, 1, 2), (2, 2));
}

#[test]
fn split_ranges_gives_every_field() {
    let chars = chars_of("1, 2,,3,");
    assert_eq!(split_ranges(&chars, ','), vec![(0, 1), (2, 4), (5, 5), (6, 7), (8, 8)]);
    let none = chars_of("");
    assert_eq!(split_ranges(&none, ','), vec![(0, 0)]);
    let plain = chars_of("abc");
    assert_eq!(split_ranges(&plain, ','), vec![(0, 3)]);
}
