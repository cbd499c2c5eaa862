use nimbuscli::matching::{
    extension_matches, folder_name_matches, get_memory_usage, get_subsequences, get_substring,
    memory_amount_valid, parse_u64_chars,
};

fn ext(x: &str) -> Option<String> {
    Some(x.to_string())
}

#[test]
fn substring_finds_longest_common_stretch() {
    assert_eq!(get_substring("config", "my_config.txt", &None), 6);
    assert_eq!(get_substring("conxig", "my_config.txt", &None), 3);
    assert_eq!(get_substring("zzz", "my_config.txt", &None), 0);
}

#[test]
fn substring_ignores_case() {
    assert_eq!(get_substring("CONF", "Configuration.yaml", &None), 4);
}

#[test]
fn substring_empty_input_scores_zero() {
    assert_eq!(get_substring("", "anything", &None), 0);
}

#[test]
fn substring_respects_extension() {
    assert_eq!(get_substring("read", "readme.txt", &ext(".TXT")), 4);
    assert_eq!(get_substring("read", "readme.md", &ext(".txt")), 0);
}

#[test]
fn substring_counts_bytes() {
    // 'é' takes two bytes in UTF-8
    assert_eq!(get_substring("é", "café", &None), 2);
    assert_eq!(get_substring("afé", "café", &None), 4);
}

#[test]
fn subsequence_counts_greedy_matches() {
    assert_eq!(get_subsequences("mltpurpose", "multipurposecli.txt", &None), 10);
    assert_eq!(get_subsequences("ba", "ab", &None), 1);
    assert_eq!(get_subsequences("abc", "abc", &None), 3);
}

#[test]
fn subsequence_is_case_sensitive() {
    assert_eq!(get_subsequences("ABC", "abc", &None), 0);
}

#[test]
fn subsequence_stops_once_entry_is_used_up() {
    // 'z' is never found, which uses the scan up; 'a' after it is not found either
    assert_eq!(get_subsequences("za", "abc", &None), 0);
}

#[test]
fn subsequence_respects_extension() {
    assert_eq!(get_subsequences("re", "readme.txt", &ext(".txt")), 2);
    assert_eq!(get_subsequences("re", "readme.md", &ext(".txt")), 0);
    assert_eq!(get_subsequences("", "readme.md", &None), 0);
}

#[test]
fn extension_filter() {
    assert!(extension_matches("Photo.PNG", &ext(".png")));
    assert!(!extension_matches("photo.jpg", &ext(".png")));
    assert!(extension_matches("photo.jpg", &None));
}

#[test]
fn memory_units() {
    assert_eq!(get_memory_usage("512b"), 512);
    assert_eq!(get_memory_usage("10kb"), 10 * 1024);
    assert_eq!(get_memory_usage("10KB"), 10 * 1024);
    assert_eq!(get_memory_usage("3mb"), 3 * 1024 * 1024);
    assert_eq!(get_memory_usage("2gb"), 2 * 1024 * 1024 * 1024);
    assert_eq!(get_memory_usage("1tb"), 1024u64 * 1024 * 1024 * 1024);
    assert_eq!(get_memory_usage("+5kb"), 5 * 1024);
}

#[test]
fn memory_unknown_unit_counts_bytes() {
    assert_eq!(get_memory_usage("10xyz"), 10);
    assert_eq!(get_memory_usage("7k"), 7);
}

#[test]
fn memory_without_unit_is_zero() {
    assert_eq!(get_memory_usage("100"), 0);
    assert_eq!(get_memory_usage(""), 0);
}

#[test]
fn memory_saturates() {
    assert_eq!(get_memory_usage("18446744073709551615tb"), u64::MAX);
    assert_eq!(get_memory_usage("17000000tb"), u64::MAX);
}

#[test]
fn memory_amount_validity() {
    assert!(memory_amount_valid("10kb"));
    assert!(memory_amount_valid("100"));
    assert!(!memory_amount_valid("kb"));
    assert!(!memory_amount_valid("1 0kb"));
    assert!(!memory_amount_valid("-1kb"));
    assert!(!memory_amount_valid("18446744073709551616kb"));
}

#[test]
fn parses_decimal_u64() {
    let p = |s: &str| parse_u64_chars(&s.chars().collect());
    assert_eq!(p("0"), Some(0));
    assert_eq!(p("+42"), Some(42));
    assert_eq!(p("18446744073709551615"), Some(u64::MAX));
    assert_eq!(p("18446744073709551616"), None);
    assert_eq!(p(""), None);
    assert_eq!(p("+"), None);
    assert_eq!(p("4a"), None);
}

#[test]
fn folder_names_match_without_case() {
    assert!(folder_name_matches("CLionProjects", "clionprojects"));
    assert!(folder_name_matches("clionprojects", "CLionProjects"));
    assert!(!folder_name_matches("CLion", "CLionProjects"));
}

#[test]
fn unit_letters_are_unicode_alphabetic() {
    // 'é' is a letter, so the number ends before it and the unit is unknown
    assert_eq!(get_memory_usage("12ékb"), 12);
    assert!(!memory_amount_valid("4 kb"));
}

#[test]
fn larger_numbers_stand_for_more_bytes() {
    assert!(get_memory_usage("9kb") <= get_memory_usage("10kb"));
    assert!(get_memory_usage("10MB") == 10485760);
}
