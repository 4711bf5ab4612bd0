use devil_connection_patcher::text::{contains_text, decimal, parse_u64, str_eq};

#[test]
fn u64_parsing() {
    assert_eq!(parse_u64("0"), Some(0));
    assert_eq!(parse_u64("+17"), Some(17));
    assert_eq!(parse_u64("18446744073709551615"), Some(u64::MAX));
    assert_eq!(parse_u64("18446744073709551616"), None);
    assert_eq!(parse_u64(""), None);
    assert_eq!(parse_u64("+"), None);
    assert_eq!(parse_u64("-1"), None);
    assert_eq!(parse_u64("1a"), None);
}

#[test]
fn decimal_text() {
    assert_eq!(decimal(0), "0");
    assert_eq!(decimal(4194304), "4194304");
    assert_eq!(decimal(u64::MAX), "18446744073709551615");
    assert_eq!(parse_u64(&decimal(12345)), Some(12345));
}

#[test]
fn text_search() {
    assert!(contains_text("hello world", "o w"));
    assert!(contains_text("abc", ""));
    assert!(!contains_text("abc", "abcd"));
    assert!(!contains_text("", "a"));
    assert!(str_eq("a", "a"));
    assert!(!str_eq("a", "b"));
}
