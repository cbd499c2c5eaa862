use nimbuscli::text::{chars_of, contains_chars, ends_with_chars, eq_ignore_ascii_case, str_contains};

#[test]
fn chars_in_order() {
    assert_eq!(chars_of("héllo"), vec!['h', 'é', 'l', 'l', 'o']);
    assert!(chars_of("").is_empty());
}

#[test]
fn char_helpers() {
    let hay = chars_of("multipurpose");
    assert!(contains_chars(&hay, &chars_of("purp")));
    assert!(contains_chars(&hay, &chars_of("")));
    assert!(!contains_chars(&hay, &chars_of("pup")));
    assert!(ends_with_chars(&hay, &chars_of("pose")));
    assert!(!ends_with_chars(&hay, &chars_of("multipurposes")));
    assert!(str_contains("/x/node_modules/y", "node_modules"));
    assert!(!str_contains("ab", "abc"));
}

#[test]
fn ascii_case_insensitive_equality() {
    assert!(eq_ignore_ascii_case("Cargo.TOML", "cargo.toml"));
    assert!(!eq_ignore_ascii_case("Éa", "éa"));
    assert!(!eq_ignore_ascii_case("abc", "abcd"));
}
