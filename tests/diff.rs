use git_shadow::diff_util::{diff_stats, unified_diff};

#[test]
fn test_diff_stats_no_change() {
    let (added, removed) = diff_stats("hello\n", "hello\n");
    assert_eq!(added, 0);
    assert_eq!(removed, 0);
}

#[test]
fn test_diff_stats_added_lines() {
    let (added, removed) = diff_stats("line1\n", "line1\nline2\nline3\n");
    assert_eq!(added, 2);
    assert_eq!(removed, 0);
}

#[test]
fn test_diff_stats_removed_lines() {
    let (added, removed) = diff_stats("line1\nline2\n", "line1\n");
    assert_eq!(added, 0);
    assert_eq!(removed, 1);
}

#[test]
fn test_diff_stats_mixed() {
    let (added, removed) = diff_stats("old\n", "new\n");
    assert_eq!(added, 1);
    assert_eq!(removed, 1);
}

#[test]
fn test_unified_diff_no_change() {
    let result = unified_diff("hello\n", "hello\n", "a/file", "b/file");
    assert!(result.contains("--- a/file"));
    assert!(result.contains("+++ b/file"));
    assert!(!result.contains("@@"));
}

#[test]
fn test_unified_diff_added_lines() {
    let result = unified_diff("line1\n", "line1\nline2\n", "a/file", "b/file");
    assert!(result.contains("+line2"));
    assert!(result.contains("@@"));
}

#[test]
fn test_unified_diff_removed_lines() {
    let result = unified_diff("line1\nline2\n", "line1\n", "a/file", "b/file");
    assert!(result.contains("-line2"));
}

#[test]
fn test_unified_diff_mixed() {
    let result = unified_diff("old\n", "new\n", "a/file", "b/file");
    assert!(result.contains("-old"));
    assert!(result.contains("+new"));
}

#[test]
fn test_unified_diff_empty_to_content() {
    let result = unified_diff("", "new content\n", "a/file", "b/file");
    assert!(result.contains("+new content"));
}

#[test]
fn unified_diff_header_exact() {
    assert_eq!(unified_diff("x\n", "x\n", "a/f", "b/f"), "--- a/f\n+++ b/f\n");
}
