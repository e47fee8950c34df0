use git_shadow::exclude::{ExcludeManager, SECTION_END, SECTION_START};

fn manager() -> ExcludeManager {
    ExcludeManager::new("/tmp/repo/.git")
}

fn add(m: &ExcludeManager, content: &str, e: &str) -> String {
    m.add_entry(content, e).unwrap_or_else(|| content.to_string())
}

#[test]
fn test_add_entry_creates_section() {
    let m = manager();
    let content = add(&m, "", "src/components/TEAM.md");
    assert!(content.contains(SECTION_START));
    assert!(content.contains("src/components/TEAM.md"));
    assert!(content.contains(SECTION_END));
}

#[test]
fn test_add_entry_idempotent() {
    let m = manager();
    let c1 = add(&m, "", "TEAM.md");
    assert!(m.add_entry(&c1, "TEAM.md").is_none());
    assert_eq!(m.list_entries(&c1).len(), 1);
}

#[test]
fn test_add_multiple_entries() {
    let m = manager();
    let c = add(&m, &add(&m, "", "a.md"), "b.md");
    let entries = m.list_entries(&c);
    assert_eq!(entries.len(), 2);
    assert!(entries.contains(&"a.md".to_string()));
    assert!(entries.contains(&"b.md".to_string()));
}

#[test]
fn test_remove_entry() {
    let m = manager();
    let c = add(&m, &add(&m, "", "a.md"), "b.md");
    let c = m.remove_entry(&c, "a.md");
    let entries = m.list_entries(&c);
    assert_eq!(entries.len(), 1);
    assert!(entries.contains(&"b.md".to_string()));
}

#[test]
fn test_remove_last_entry_removes_section() {
    let m = manager();
    let c = m.remove_entry(&add(&m, "", "a.md"), "a.md");
    assert!(!c.contains(SECTION_START));
    assert!(!c.contains(SECTION_END));
}

#[test]
fn test_preserves_existing_content() {
    let m = manager();
    let c = add(&m, "*.log\ntmp/\n", "TEAM.md");
    assert!(c.contains("*.log"));
    assert!(c.contains("tmp/"));
    assert!(c.contains("TEAM.md"));
}

#[test]
fn test_list_entries_empty_file() {
    assert!(manager().list_entries("").is_empty());
}

#[test]
fn test_list_entries_no_section() {
    assert!(manager().list_entries("*.log\n").is_empty());
}

#[test]
fn test_remove_nonexistent_entry_is_ok() {
    let m = manager();
    let c = add(&m, "", "a.md");
    assert_eq!(m.remove_entry(&c, "nonexistent.md"), c);
}

#[test]
fn exact_layout_of_the_block() {
    let m = manager();
    let c = add(&m, "*.log", "TEAM.md");
    assert_eq!(
        c,
        format!("*.log\n{}\nTEAM.md\n{}\n", SECTION_START, SECTION_END)
    );
}

#[test]
fn add_then_remove_restores_the_file() {
    let m = manager();
    for before in ["", "*.log\ntmp/\n", "a\n\nb\n", "# comment\n"] {
        let added = add(&m, before, "local.md");
        assert_eq!(m.remove_entry(&added, "local.md"), before);
    }
    let added = add(&m, "no-newline", "x/");
    assert_eq!(m.remove_entry(&added, "x/"), "no-newline\n");
}

#[test]
fn content_after_the_block_is_kept() {
    let m = manager();
    let text = format!("top\n{}\nold.md\n{}\nbottom\n", SECTION_START, SECTION_END);
    let c = add(&m, &text, "new.md");
    assert_eq!(
        c,
        format!("top\n{}\nold.md\nnew.md\n{}\nbottom\n", SECTION_START, SECTION_END)
    );
    assert_eq!(m.remove_entry(&c, "new.md"), text);
}

#[test]
fn blank_and_comment_lines_in_block_are_not_entries() {
    let m = manager();
    let text = format!("{}\n  a.md  \n\n# note\n{}\n", SECTION_START, SECTION_END);
    assert_eq!(m.list_entries(&text), vec!["a.md".to_string()]);
}

#[test]
fn manager_path_is_info_exclude() {
    assert_eq!(manager().path, "/tmp/repo/.git/info/exclude");
}

#[test]
fn directory_phantoms_get_a_trailing_slash() {
    assert_eq!(git_shadow::exclude::exclude_line(".agent", true), ".agent/");
    assert_eq!(git_shadow::exclude::exclude_line("local.md", false), "local.md");
}
