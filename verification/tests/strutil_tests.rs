use libcrawl::crawl_utils::{array_stringify, http_headers_fmt};
use libcrawl::strutil::{eq_str, has_prefix, trim_end, u64_to_dec};

#[test]
fn decimal_rendering() {
    assert_eq!(u64_to_dec(0), "0");
    assert_eq!(u64_to_dec(7), "7");
    assert_eq!(u64_to_dec(10), "10");
    assert_eq!(u64_to_dec(1234567890), "1234567890");
    assert_eq!(u64_to_dec(u64::MAX), "18446744073709551615");
}

#[test]
fn string_equality() {
    assert!(eq_str("abc", "abc"));
    assert!(!eq_str("abc", "abd"));
    assert!(!eq_str("abc", "abcd"));
    assert!(eq_str("", ""));
}

#[test]
fn prefix_test() {
    assert!(has_prefix("https://example.test", "https"));
    assert!(!has_prefix("http://example.test", "https"));
    assert!(has_prefix("anything", ""));
    assert!(!has_prefix("ab", "abc"));
}

#[test]
fn trailing_whitespace_trimmed() {
    assert_eq!(trim_end("http://a.test/x \t\r\n"), "http://a.test/x");
    assert_eq!(trim_end("no-trailing"), "no-trailing");
    assert_eq!(trim_end("   "), "");
    assert_eq!(trim_end(""), "");
    assert_eq!(trim_end("  inner kept  "), "  inner kept");
}

#[test]
fn array_stringify_joins() {
    let arr = vec!["a".to_string(), "b".to_string(), "c".to_string()];
    assert_eq!(array_stringify(&arr, ','), "a,b,c");
    let one = vec!["only".to_string()];
    assert_eq!(array_stringify(&one, ';'), "only");
    let none: Vec<String> = vec![];
    assert_eq!(array_stringify(&none, ','), "");
}

#[test]
fn header_formatting() {
    let hs = vec![
        ("Host".to_string(), "example.test".to_string()),
        ("Accept".to_string(), "*/*".to_string()),
    ];
    assert_eq!(http_headers_fmt(&hs), "Host: example.test\r\nAccept: */*");
    let empty: Vec<(String, String)> = vec![];
    assert_eq!(http_headers_fmt(&empty), "");
}
