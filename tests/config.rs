use git_shadow::config::{ExcludeMode, FileType, ShadowConfig};
use git_shadow::error::ShadowError;

#[test]
fn test_new_config() {
    let config = ShadowConfig::new();
    assert_eq!(config.version, 1);
    assert!(config.files.is_empty());
    assert!(!config.suspended);
}

#[test]
fn test_add_overlay() {
    let mut config = ShadowConfig::new();
    config
        .add_overlay("TEAM.md".to_string(), "abc1234".to_string())
        .unwrap();
    let entry = config.get("TEAM.md").unwrap();
    assert_eq!(entry.file_type, FileType::Overlay);
    assert_eq!(entry.baseline_commit.as_deref(), Some("abc1234"));
    assert_eq!(entry.exclude_mode, ExcludeMode::NoExclude);
}

#[test]
fn test_add_phantom_with_exclude() {
    let mut config = ShadowConfig::new();
    config
        .add_phantom(
            "src/components/TEAM.md".to_string(),
            ExcludeMode::GitInfoExclude,
            false,
        )
        .unwrap();
    let entry = config.get("src/components/TEAM.md").unwrap();
    assert_eq!(entry.file_type, FileType::Phantom);
    assert_eq!(entry.baseline_commit, None);
    assert_eq!(entry.exclude_mode, ExcludeMode::GitInfoExclude);
}

#[test]
fn test_add_phantom_no_exclude() {
    let mut config = ShadowConfig::new();
    config
        .add_phantom("test.md".to_string(), ExcludeMode::NoExclude, false)
        .unwrap();
    let entry = config.get("test.md").unwrap();
    assert_eq!(entry.exclude_mode, ExcludeMode::NoExclude);
}

#[test]
fn test_add_duplicate_returns_error() {
    let mut config = ShadowConfig::new();
    config
        .add_overlay("TEAM.md".to_string(), "abc1234".to_string())
        .unwrap();
    let result = config.add_overlay("TEAM.md".to_string(), "def5678".to_string());
    assert!(matches!(result, Err(ShadowError::AlreadyManaged(_))));
    assert_eq!(config.files.len(), 1);
}

#[test]
fn test_remove_existing() {
    let mut config = ShadowConfig::new();
    config
        .add_overlay("TEAM.md".to_string(), "abc1234".to_string())
        .unwrap();
    let entry = config.remove("TEAM.md").unwrap();
    assert_eq!(entry.file_type, FileType::Overlay);
    assert!(config.get("TEAM.md").is_none());
}

#[test]
fn test_remove_nonexistent_returns_error() {
    let mut config = ShadowConfig::new();
    let result = config.remove("nonexistent.md");
    assert!(matches!(result, Err(ShadowError::NotManaged(_))));
}

#[test]
fn test_get_nonexistent_returns_none() {
    let config = ShadowConfig::new();
    assert!(config.get("nonexistent.md").is_none());
}

#[test]
fn test_add_phantom_directory() {
    let mut config = ShadowConfig::new();
    config
        .add_phantom(".agent".to_string(), ExcludeMode::GitInfoExclude, true)
        .unwrap();
    let entry = config.get(".agent").unwrap();
    assert_eq!(entry.file_type, FileType::Phantom);
    assert!(entry.is_directory);
    assert_eq!(entry.exclude_mode, ExcludeMode::GitInfoExclude);
}

#[test]
fn test_add_phantom_file_is_not_directory() {
    let mut config = ShadowConfig::new();
    config
        .add_phantom("local.md".to_string(), ExcludeMode::NoExclude, false)
        .unwrap();
    assert!(!config.get("local.md").unwrap().is_directory);
}

fn keys(c: &ShadowConfig) -> Vec<String> {
    c.files.iter().map(|(k, _)| k.clone()).collect()
}

#[test]
fn register_then_unregister_restores_registry() {
    let mut config = ShadowConfig::new();
    config.add_overlay("a.md".to_string(), "c1".to_string()).unwrap();
    config.add_phantom("b.md".to_string(), ExcludeMode::GitInfoExclude, false).unwrap();
    let before = keys(&config);
    config.add_overlay("new.md".to_string(), "c2".to_string()).unwrap();
    config.remove("new.md").unwrap();
    assert_eq!(keys(&config), before);
    assert_eq!(config.get("a.md").unwrap().baseline_commit.as_deref(), Some("c1"));
    assert_eq!(config.version, 1);
}

#[test]
fn added_at_is_an_rfc3339_time() {
    let mut config = ShadowConfig::new();
    config.add_overlay("a.md".to_string(), "c1".to_string()).unwrap();
    let t = &config.get("a.md").unwrap().added_at;
    assert!(chrono::DateTime::parse_from_rfc3339(t).is_ok(), "{}", t);
}

#[test]
fn set_baseline_commit_updates_only_that_entry() {
    let mut config = ShadowConfig::new();
    config.add_overlay("a.md".to_string(), "c1".to_string()).unwrap();
    config.add_overlay("b.md".to_string(), "c1".to_string()).unwrap();
    assert!(config.set_baseline_commit("b.md", "c2".to_string()));
    assert!(!config.set_baseline_commit("zzz.md", "c2".to_string()));
    assert_eq!(config.get("a.md").unwrap().baseline_commit.as_deref(), Some("c1"));
    assert_eq!(config.get("b.md").unwrap().baseline_commit.as_deref(), Some("c2"));
    assert_eq!(keys(&config), vec!["a.md".to_string(), "b.md".to_string()]);
}
