use wm_countries::config::Settings;
use wm_countries::text::{parse_u32, parse_u64, str_eq_ci, str_lt, trimmed, u32_string};

#[test]
fn trimmed_strips_whitespace_ends() {
    assert_eq!(trimmed("  US \n"), "US");
    assert_eq!(trimmed("\t\r\n "), "");
    assert_eq!(trimmed("no-change"), "no-change");
    assert_eq!(trimmed("a b"), "a b");
}

#[test]
fn parse_accepts_digits_and_leading_plus() {
    assert_eq!(parse_u64("15000"), Some(15000));
    assert_eq!(parse_u64("+7"), Some(7));
    assert_eq!(parse_u64(""), None);
    assert_eq!(parse_u64("+"), None);
    assert_eq!(parse_u64("12x"), None);
    assert_eq!(parse_u64(" 12"), None);
    assert_eq!(parse_u64("18446744073709551615"), Some(u64::MAX));
    assert_eq!(parse_u64("18446744073709551616"), None);
}

#[test]
fn parse_u32_rejects_overflow() {
    assert_eq!(parse_u32("4294967295"), Some(u32::MAX));
    assert_eq!(parse_u32("4294967296"), None);
}

#[test]
fn renders_decimal() {
    assert_eq!(u32_string(0), "0");
    assert_eq!(u32_string(7), "7");
    assert_eq!(u32_string(100), "100");
    assert_eq!(u32_string(4294967295), "4294967295");
}

#[test]
fn byte_wise_string_order() {
    assert!(str_lt("CA", "US"));
    assert!(str_lt("US", "us"));
    assert!(!str_lt("us", "US"));
    assert!(str_lt("U", "US"));
    assert!(!str_lt("US", "US"));
}

#[test]
fn case_insensitive_ascii_equality() {
    assert!(str_eq_ci("TRUE", "true"));
    assert!(str_eq_ci("TrUe", "true"));
    assert!(!str_eq_ci("truthy", "true"));
}

#[test]
fn settings_defaults_when_nothing_is_set() {
    let s = Settings::from_raw(None, None, None, None, None, None, None);
    assert_eq!(s.base_url, "https://partnerapi.worldmobilelabs.com");
    assert_eq!(s.bearer_token, None);
    assert!(!s.use_stub);
    assert_eq!(s.http_timeout_ms, 15000);
    assert_eq!(s.max_pages, 20);
    assert_eq!(s.default_page_size, 100);
    assert!(s.fail_open);
}

#[test]
fn settings_flags_accept_one_and_true() {
    let s = Settings::from_raw(
        Some(String::from("http://localhost:9")),
        Some(String::from("secret")),
        Some(String::from("1")),
        Some(String::from("2500")),
        Some(String::from("3")),
        Some(String::from("50")),
        Some(String::from("TRUE")),
    );
    assert_eq!(s.base_url, "http://localhost:9");
    assert_eq!(s.bearer_token, Some(String::from("secret")));
    assert!(s.use_stub);
    assert_eq!(s.http_timeout_ms, 2500);
    assert_eq!(s.max_pages, 3);
    assert_eq!(s.default_page_size, 50);
    assert!(s.fail_open);
}

#[test]
fn settings_unreadable_numbers_fall_back() {
    let s = Settings::from_raw(
        None,
        None,
        Some(String::from("yes")),
        Some(String::from("soon")),
        Some(String::from("-2")),
        Some(String::from("")),
        Some(String::from("0")),
    );
    assert!(!s.use_stub);
    assert_eq!(s.http_timeout_ms, 15000);
    assert_eq!(s.max_pages, 20);
    assert_eq!(s.default_page_size, 100);
    assert!(!s.fail_open);
}
