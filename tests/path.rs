use git_shadow::error::ShadowError;
use git_shadow::path::{decode_path, encode_path, join_path, normalize_path};

#[test]
fn test_encode_simple_filename() {
    assert_eq!(encode_path("TEAM.md"), "TEAM.md");
}

#[test]
fn test_encode_path_with_slashes() {
    assert_eq!(
        encode_path("src/components/TEAM.md"),
        "src%2Fcomponents%2FTEAM.md"
    );
}

#[test]
fn test_encode_path_with_percent() {
    assert_eq!(encode_path("docs/100%done.md"), "docs%2F100%25done.md");
}

#[test]
fn test_encode_path_with_percent_and_slash() {
    assert_eq!(encode_path("a%b/c"), "a%25b%2Fc");
}

#[test]
fn test_decode_simple_filename() {
    assert_eq!(decode_path("TEAM.md"), "TEAM.md");
}

#[test]
fn test_decode_path_with_slashes() {
    assert_eq!(
        decode_path("src%2Fcomponents%2FTEAM.md"),
        "src/components/TEAM.md"
    );
}

#[test]
fn test_decode_path_with_percent() {
    assert_eq!(decode_path("docs%2F100%25done.md"), "docs/100%done.md");
}

#[test]
fn test_roundtrip_simple() {
    let path = "TEAM.md";
    assert_eq!(decode_path(&encode_path(path)), path);
}

#[test]
fn test_roundtrip_nested() {
    let path = "src/components/TEAM.md";
    assert_eq!(decode_path(&encode_path(path)), path);
}

#[test]
fn test_roundtrip_with_percent() {
    let path = "docs/100%done.md";
    assert_eq!(decode_path(&encode_path(path)), path);
}

#[test]
fn test_roundtrip_complex() {
    let path = "a%b/c%d/e";
    assert_eq!(decode_path(&encode_path(path)), path);
}

#[test]
fn test_roundtrip_double_percent() {
    let path = "%%/%%";
    assert_eq!(decode_path(&encode_path(path)), path);
}

#[test]
fn test_normalize_strips_leading_dot_slash() {
    let repo = "/repo";
    assert_eq!(normalize_path("./TEAM.md", repo).unwrap(), "TEAM.md");
}

#[test]
fn test_normalize_already_relative() {
    let repo = "/repo";
    assert_eq!(normalize_path("TEAM.md", repo).unwrap(), "TEAM.md");
}

#[test]
fn test_normalize_nested_path() {
    let repo = "/repo";
    assert_eq!(
        normalize_path("src/components/TEAM.md", repo).unwrap(),
        "src/components/TEAM.md"
    );
}

#[test]
fn test_normalize_backslash_to_forward_slash() {
    let repo = "/repo";
    assert_eq!(
        normalize_path("src\\components\\TEAM.md", repo).unwrap(),
        "src/components/TEAM.md"
    );
}

#[test]
fn test_normalize_absolute_path_within_repo() {
    let repo = "/repo";
    assert_eq!(
        normalize_path("/repo/src/TEAM.md", repo).unwrap(),
        "src/TEAM.md"
    );
}

#[test]
fn test_normalize_strips_multiple_leading_dot_slash() {
    let repo = "/repo";
    assert_eq!(normalize_path("././TEAM.md", repo).unwrap(), "TEAM.md");
}

#[test]
fn normalize_rejects_absolute_path_outside_root() {
    let r = normalize_path("/elsewhere/TEAM.md", "/repo");
    assert!(matches!(r, Err(ShadowError::OutsideRepo { .. })));
}

#[test]
fn normalize_rejects_sibling_with_root_as_prefix() {
    let r = normalize_path("/repository/x.md", "/repo");
    assert!(matches!(r, Err(ShadowError::OutsideRepo { .. })));
}

#[test]
fn normalize_root_with_trailing_slash() {
    assert_eq!(normalize_path("/repo/a/b.md", "/repo/").unwrap(), "a/b.md");
}

#[test]
fn encode_then_decode_keeps_literal_percent_2f() {
    let path = "a%2Fb/c";
    assert_eq!(encode_path(path), "a%252Fb%2Fc");
    assert_eq!(decode_path(&encode_path(path)), path);
}

#[test]
fn encode_empty_and_unicode() {
    assert_eq!(encode_path(""), "");
    assert_eq!(decode_path(&encode_path("café/ß%.md")), "café/ß%.md");
}

#[test]
fn join_path_adds_one_separator() {
    assert_eq!(join_path("/repo", ".git"), "/repo/.git");
    assert_eq!(join_path("/repo/", ".git"), "/repo/.git");
    assert_eq!(join_path("", "x"), "x");
}

#[test]
fn normalize_never_yields_an_absolute_path() {
    assert_eq!(normalize_path(".//a", "/repo").unwrap(), "a");
    assert_eq!(normalize_path("././/./b/c", "/repo").unwrap(), "b/c");
    assert_eq!(normalize_path("/repo/.//x.md", "/repo").unwrap(), "x.md");
    assert_eq!(normalize_path(".\\\\a", "/repo").unwrap(), "a");
}
