use git_shadow::commands::install::{generate_hook_script, has_marker};
use git_shadow::commands::status::format_size;

#[test]
fn test_format_size_bytes() {
    assert_eq!(format_size(500), "500 B");
}

#[test]
fn test_format_size_kb() {
    assert_eq!(format_size(1536), "1.5 KB");
}

#[test]
fn test_format_size_mb() {
    assert_eq!(format_size(1572864), "1.5 MB");
}

#[test]
fn format_size_edges() {
    assert_eq!(format_size(0), "0 B");
    assert_eq!(format_size(1023), "1023 B");
    assert_eq!(format_size(1024), "1.0 KB");
    assert_eq!(format_size(1048575), "1024.0 KB");
    assert_eq!(format_size(1048576), "1.0 MB");
    assert_eq!(format_size(1100), "1.1 KB");
}

#[test]
fn format_size_matches_float_formatting() {
    for b in [1024u64, 1075, 1126, 2000, 5000, 123456, 999999, 1048576, 3000000, 1073741824] {
        let expect = if b < 1024 * 1024 {
            format!("{:.1} KB", b as f64 / 1024.0)
        } else {
            format!("{:.1} MB", b as f64 / (1024.0 * 1024.0))
        };
        assert_eq!(format_size(b), expect, "bytes = {}", b);
    }
}

#[test]
fn hook_script_names_the_hook_and_chains() {
    let s = generate_hook_script("pre-commit");
    assert!(s.starts_with("#!/bin/sh\n"));
    assert!(s.contains("git-shadow hook pre-commit\n"));
    assert!(s.contains("if [ -x .git/hooks/pre-commit.pre-shadow ]; then"));
    assert!(s.contains("  .git/hooks/pre-commit.pre-shadow \"$@\""));
    assert!(has_marker(&s));
}

#[test]
fn marker_detection() {
    assert!(!has_marker("#!/bin/sh\nexec lint\n"));
    assert!(has_marker("x git-shadow hook y"));
    assert!(!has_marker(""));
}

#[test]
fn test_is_binary_text_file() {
    assert!(!git_shadow::fs_util::is_binary(b"Hello, world!\nLine 2\n"));
}

#[test]
fn test_is_binary_with_null_bytes() {
    let mut content = vec![0x48, 0x65, 0x6c, 0x6c, 0x6f];
    content.push(0x00);
    content.extend_from_slice(b"world");
    assert!(git_shadow::fs_util::is_binary(&content));
}

#[test]
fn test_is_binary_empty_file() {
    assert!(!git_shadow::fs_util::is_binary(b""));
}

#[test]
fn test_is_binary_utf8() {
    assert!(!git_shadow::fs_util::is_binary("UTF-8 test: café résumé 🚀".as_bytes()));
}

#[test]
fn zero_byte_past_eight_kib_is_not_seen() {
    let mut content = vec![b'a'; 8192];
    content.push(0);
    assert!(!git_shadow::fs_util::is_binary(&content));
    content[8191] = 0;
    assert!(git_shadow::fs_util::is_binary(&content));
}

#[test]
fn test_check_size_under_limit() {
    assert!(git_shadow::fs_util::check_size("small.txt", 13, false).is_ok());
}

#[test]
fn test_check_size_over_limit() {
    let limit = git_shadow::fs_util::SIZE_LIMIT;
    let result = git_shadow::fs_util::check_size("large.bin", limit + 1, false);
    assert!(matches!(
        result,
        Err(git_shadow::error::ShadowError::FileTooLarge(_, s, l)) if s == limit + 1 && l == limit
    ));
}

#[test]
fn test_check_size_over_limit_with_force() {
    let limit = git_shadow::fs_util::SIZE_LIMIT;
    assert!(git_shadow::fs_util::check_size("large.bin", limit + 1, true).is_ok());
    assert!(git_shadow::fs_util::check_size("exact.bin", limit, false).is_ok());
}
