use ir_bench::numtext::{format_i64, format_u128_padded, parse_i32, parse_i64};
use ir_bench::text::{chars_of, str_less, trim_chars};

fn text(v: Vec<char>) -> String {
    v.into_iter().collect()
}

#[test]
fn parses_integers_like_std() {
    assert_eq!(parse_i32("42"), Some(42));
    assert_eq!(parse_i32("+7"), Some(7));
    assert_eq!(parse_i32("-12"), Some(-12));
    assert_eq!(parse_i32(" 42"), None);
    assert_eq!(parse_i32(""), None);
    assert_eq!(parse_i32("-"), None);
    assert_eq!(parse_i32("2147483647"), Some(i32::MAX));
    assert_eq!(parse_i32("2147483648"), None);
    assert_eq!(parse_i32("-2147483648"), Some(i32::MIN));
    assert_eq!(parse_i64("9223372036854775807"), Some(i64::MAX));
    assert_eq!(parse_i64("1x"), None);
}

#[test]
fn formats_integers_like_display() {
    assert_eq!(text(format_i64(0)), "0");
    assert_eq!(text(format_i64(-305)), "-305");
    assert_eq!(text(format_i64(i64::MIN)), i64::MIN.to_string());
    assert_eq!(text(format_u128_padded(5, 2)), "05");
    assert_eq!(text(format_u128_padded(123, 2)), "123");
}

#[test]
fn formatted_numbers_parse_back() {
    for n in [0i64, 1, -1, 99, -12345, i64::MAX, i64::MIN] {
        assert_eq!(parse_i64(&text(format_i64(n))), Some(n));
    }
}

#[test]
fn trims_white_space() {
    assert_eq!(text(trim_chars(&chars_of("  a b \t\r\n"))), "a b");
    assert_eq!(text(trim_chars(&chars_of("   "))), "");
}

#[test]
fn orders_strings_by_code_point() {
    assert!(str_less("abc", "abd"));
    assert!(str_less("ab", "abc"));
    assert!(!str_less("abc", "abc"));
    assert!(str_less("Zebra", "apple"));
    assert!(!str_less("b", "a"));
}
