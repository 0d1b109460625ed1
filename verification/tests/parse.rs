use aoc::parse::{chars_of, parse_i64, parse_u64, str_eq};

fn cv(s: &str) -> Vec<char> {
    chars_of(s)
}

#[test]
fn test_parse_u64() {
    assert_eq!(parse_u64(&cv("0")), Some(0));
    assert_eq!(parse_u64(&cv("123")), Some(123));
    assert_eq!(parse_u64(&cv("18446744073709551615")), Some(u64::MAX));
    assert_eq!(parse_u64(&cv("18446744073709551616")), None);
    assert_eq!(parse_u64(&cv("")), None);
    assert_eq!(parse_u64(&cv("12a")), None);
    assert_eq!(parse_u64(&cv("-3")), None);
}

#[test]
fn test_parse_i64() {
    assert_eq!(parse_i64(&cv("42")), Some(42));
    assert_eq!(parse_i64(&cv("-42")), Some(-42));
    assert_eq!(parse_i64(&cv("-9223372036854775808")), Some(i64::MIN));
    assert_eq!(parse_i64(&cv("9223372036854775807")), Some(i64::MAX));
    assert_eq!(parse_i64(&cv("9223372036854775808")), None);
    assert_eq!(parse_i64(&cv("-")), None);
    assert_eq!(parse_i64(&cv("--1")), None);
}

#[test]
fn test_str_eq() {
    assert!(str_eq("abc", "abc"));
    assert!(!str_eq("abc", "abd"));
    assert!(!str_eq("abc", "ab"));
    assert!(str_eq("", ""));
}
