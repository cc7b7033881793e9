use languagetool_code_comments::text::{decimal_string, str_ends_with, str_eq, str_starts_with};

#[test]
fn decimal_matches_to_string() {
    for n in [0u64, 7, 10, 99, 100, 305, 4096, 1234567890, u64::MAX] {
        assert_eq!(decimal_string(n), n.to_string());
    }
}

#[test]
fn prefix_suffix_and_equality() {
    assert!(str_starts_with("#!/bin/sh", "#!"));
    assert!(!str_starts_with("# comment", "#!"));
    assert!(!str_starts_with("#", "#!"));
    assert!(str_ends_with("run.sh", ".sh"));
    assert!(!str_ends_with("run.shx", ".sh"));
    assert!(!str_ends_with("sh", ".sh"));
    assert!(str_eq("comment", "comment"));
    assert!(!str_eq("comment", "line_comment"));
    assert!(str_eq("ünï", "ünï"));
}
