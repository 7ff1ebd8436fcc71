use rust_macos_gui::url::{is_fetchable_url, starts_with};

#[test]
fn http_and_https_are_fetched() {
    assert!(is_fetchable_url("http://example.com/file.txt"));
    assert!(is_fetchable_url("https://example.com/file.txt"));
    assert!(is_fetchable_url("http://"));
}

#[test]
fn other_addresses_are_refused() {
    assert!(!is_fetchable_url(""));
    assert!(!is_fetchable_url("ftp://example.com"));
    assert!(!is_fetchable_url("HTTP://example.com"));
    assert!(!is_fetchable_url("http:/example.com"));
    assert!(!is_fetchable_url("example.com"));
    assert!(!is_fetchable_url(" https://example.com"));
    assert!(!is_fetchable_url("htt"));
}

#[test]
fn prefix_check() {
    assert!(starts_with("abc", ""));
    assert!(starts_with("abc", "ab"));
    assert!(starts_with("éa", "é"));
    assert!(!starts_with("ab", "abc"));
    assert!(!starts_with("abc", "b"));
}
