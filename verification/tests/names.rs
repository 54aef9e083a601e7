//! Name transformations and identifier parsing.

use safe_rebase::names::{concat_strs, parse_commit_id, prefetch_name, starts_with_str, str_eq};

#[test]
fn prefetch_name_of_a_remote_reference() {
    assert_eq!(
        prefetch_name("refs/remotes/origin/main", true),
        Some("refs/prefetch/remotes/origin/main".to_string())
    );
}

#[test]
fn prefetch_name_not_applicable_outside_remotes() {
    assert_eq!(prefetch_name("refs/remotes/origin/main", false), None);
    assert_eq!(prefetch_name("FETCH_HEAD", true), None);
}

#[test]
fn decimal_identifier_parsing() {
    assert_eq!(parse_commit_id("42", 100), Some(42));
    assert_eq!(parse_commit_id("0", 1), Some(0));
    assert_eq!(parse_commit_id("42", 10), None);
    assert_eq!(parse_commit_id("", 5), None);
    assert_eq!(parse_commit_id("4a", 100), None);
    assert_eq!(parse_commit_id("99999999999999999999999999", usize::MAX), None);
}

#[test]
fn name_comparison_and_prefixes() {
    assert!(str_eq("refs/stash", "refs/stash"));
    assert!(!str_eq("refs/stash", "refs/stash2"));
    assert!(starts_with_str("refs/heads/main", "refs/"));
    assert!(!starts_with_str("ref", "refs/"));
    assert_eq!(concat_strs("refs/heads/", "main"), "refs/heads/main".to_string());
}
