use otm::order::cmp_name;
use otm::text::{contains_ignoring_case, contains_str, escape, is_background_process};
use std::cmp::Ordering;

#[test]
fn escapes_markup_and_wraps_braille() {
    assert_eq!(escape("a<b&c>"), "a&lt;b&amp;c&gt;");
    assert_eq!(escape("\u{2801}x"), "<i>\u{2801}</i>x");
    assert_eq!(escape(""), "");
}

#[test]
fn background_processes_by_name() {
    assert!(is_background_process("Spotify Helper"));
    assert!(is_background_process("dbus-DAEMON"));
    assert!(is_background_process("svchost.exe"));
    assert!(!is_background_process("Firefox"));
    assert!(!is_background_process(""));
}

#[test]
fn names_compare_without_case() {
    assert_eq!(cmp_name("apple", "Banana"), Ordering::Less);
    assert_eq!(cmp_name("Zed", "alpha"), Ordering::Greater);
    assert_eq!(cmp_name("Code", "code"), Ordering::Equal);
    assert_eq!(cmp_name("ab", "abc"), Ordering::Less);
}

#[test]
fn substring_search() {
    assert!(contains_str("Firefox", "ref"));
    assert!(!contains_str("Firefox", "REF"));
    assert!(contains_ignoring_case("Firefox", "REF"));
    assert!(contains_str("abc", ""));
    assert!(contains_ignoring_case("ÄbC", "äB"));
}
