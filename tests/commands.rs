use git_shadow::commands::resume::{record_restored, resume_guard, resume_overlay, ResumeAction};
use git_shadow::commands::suspend::{suspend_guard, suspend_steps};
use git_shadow::config::{ExcludeMode, ShadowConfig};
use git_shadow::disk::StepKind;
use git_shadow::error::ShadowError;
use git_shadow::exclude::{exclude_line, ExcludeManager};
use git_shadow::git::{GitRepo, UnstageStep};
use git_shadow::lock::LockStatus;

#[test]
fn test_resume_not_suspended_is_error() {
    let config = ShadowConfig::new();
    assert_eq!(resume_guard(&config), Err(ShadowError::NotSuspended));
    let mut suspended = ShadowConfig::new();
    suspended.suspended = true;
    assert_eq!(resume_guard(&suspended), Ok(()));
}

#[test]
fn test_suspend_blocks_when_already_suspended() {
    let mut config = ShadowConfig::new();
    config.suspended = true;
    assert_eq!(
        suspend_guard(&config, &LockStatus::Free, false),
        Err(ShadowError::AlreadySuspended)
    );
}

#[test]
fn suspend_blocked_by_lock_and_stash() {
    let config = ShadowConfig::new();
    assert_eq!(
        suspend_guard(&config, &LockStatus::HeldByUs, false),
        Err(ShadowError::CommitInProgress)
    );
    assert_eq!(
        suspend_guard(&config, &LockStatus::Free, true),
        Err(ShadowError::StashRemaining)
    );
    assert_eq!(suspend_guard(&config, &LockStatus::Free, false), Ok(()));
}

#[test]
fn suspend_parks_overlays_and_existing_phantoms() {
    let mut config = ShadowConfig::new();
    config.add_overlay("TEAM.md".to_string(), "c1".to_string()).unwrap();
    config.add_phantom("local.md".to_string(), ExcludeMode::GitInfoExclude, false).unwrap();
    config.add_phantom("gone.md".to_string(), ExcludeMode::GitInfoExclude, false).unwrap();
    config.add_phantom(".agent".to_string(), ExcludeMode::GitInfoExclude, true).unwrap();
    let steps = suspend_steps(&config, &vec![true, true, false, true]);
    let got: Vec<(StepKind, &str)> = steps.iter().map(|s| (s.kind, s.path.as_str())).collect();
    assert_eq!(
        got,
        vec![
            (StepKind::Park, "TEAM.md"),
            (StepKind::RestoreBaseline, "TEAM.md"),
            (StepKind::Park, "local.md"),
            (StepKind::Delete, "local.md"),
        ]
    );
}

#[test]
fn resume_actions() {
    assert_eq!(resume_overlay(false, "a", Some("b")), ResumeAction::NothingParked);
    assert_eq!(resume_overlay(true, "a", None), ResumeAction::RestoreAbsent);
    assert_eq!(resume_overlay(true, "a", Some("a")), ResumeAction::RestoreParked);
    assert_eq!(resume_overlay(true, "a", Some("b")), ResumeAction::Merge);
}

#[test]
fn test_remove_updates_config() {
    let mut config = ShadowConfig::new();
    config.add_overlay("TEAM.md".to_string(), "abc1234".to_string()).unwrap();
    config.remove("TEAM.md").unwrap();
    assert!(config.files.is_empty());
}

#[test]
fn test_remove_not_managed_errors() {
    let mut config = ShadowConfig::new();
    assert_eq!(
        config.remove("nope.md").map(|_| ()),
        Err(ShadowError::NotManaged("nope.md".to_string()))
    );
}

#[test]
fn test_remove_phantom_file_removes_exclude_without_trailing_slash() {
    let m = ExcludeManager::new("/r/.git");
    let text = m.add_entry("", &exclude_line("local.md", false)).unwrap();
    let text = m.add_entry(&text, &exclude_line(".agent", true)).unwrap();
    let after = m.remove_entry(&text, &exclude_line("local.md", false));
    assert_eq!(m.list_entries(&after), vec![".agent/".to_string()]);
}

#[test]
fn test_add_overlay_creates_config_entry() {
    let mut config = ShadowConfig::new();
    config.add_overlay("TEAM.md".to_string(), "abc1234".to_string()).unwrap();
    assert_eq!(config.files.len(), 1);
    assert_eq!(config.files[0].0, "TEAM.md");
}

#[test]
fn test_add_overlay_rejects_duplicate() {
    let mut config = ShadowConfig::new();
    config.add_overlay("TEAM.md".to_string(), "abc1234".to_string()).unwrap();
    assert_eq!(
        config.add_overlay("TEAM.md".to_string(), "abc1234".to_string()),
        Err(ShadowError::AlreadyManaged("TEAM.md".to_string()))
    );
}

#[test]
fn test_discover_not_a_repo() {
    assert!(matches!(GitRepo::discover(false, ""), Err(ShadowError::NotAGitRepo)));
}

#[test]
fn discover_trims_the_toplevel() {
    let repo = GitRepo::discover(true, "/home/u/proj\n").unwrap();
    assert_eq!(repo.root, "/home/u/proj");
    assert_eq!(repo.git_dir, "/home/u/proj/.git");
    assert_eq!(repo.shadow_dir, "/home/u/proj/.git/shadow");
}

#[test]
fn staging_status_from_porcelain() {
    assert_eq!(GitRepo::staging_status(""), (false, false));
    assert_eq!(
        GitRepo::staging_status("1 M. N... 100644 100644 100644 aaa bbb f.md\n"),
        (true, false)
    );
    assert_eq!(
        GitRepo::staging_status("1 MM N... 100644 100644 100644 aaa bbb f.md\n"),
        (true, true)
    );
    assert_eq!(
        GitRepo::staging_status("? untracked.md\n1 .M N... 100644 100644 100644 a b f.md\n"),
        (false, true)
    );
}

#[test]
fn unstage_strategies_in_order() {
    let args = |n: usize| match GitRepo::unstage_phantom("p.md", n) {
        UnstageStep::Run(a) => a,
        UnstageStep::GiveUp(_) => panic!("gave up early"),
    };
    assert_eq!(args(0), vec!["rm", "--cached", "--ignore-unmatch", "p.md"]);
    assert_eq!(args(1), vec!["restore", "--staged", "p.md"]);
    assert_eq!(args(2), vec!["reset", "--", "p.md"]);
    assert!(matches!(
        GitRepo::unstage_phantom("p.md", 3),
        UnstageStep::GiveUp(ShadowError::UnstageFailure(ref p)) if p == "p.md"
    ));
    assert_eq!(GitRepo::add("p.md"), vec!["add", "p.md"]);
    assert_eq!(GitRepo::head_commit("abc123\n"), "abc123");
}

use git_shadow::commands::add::{add_overlay_checks, add_phantom_checks};
use git_shadow::commands::doctor::{
    check_config_integrity, check_hooks, EntryState, HookIssue, HookState, IntegrityIssue,
};

fn hook(exists: bool, executable: bool, content: &str) -> HookState {
    HookState { exists, executable, content: Some(content.to_string()) }
}

#[test]
fn test_hook_missing_detected() {
    let hooks = vec![
        hook(true, true, "#!/bin/sh\ngit-shadow hook pre-commit\n"),
        HookState { exists: false, executable: false, content: None },
        hook(true, true, "#!/bin/sh\ngit-shadow hook post-merge\n"),
    ];
    assert_eq!(check_hooks(&hooks), vec![(1, HookIssue::Missing)]);
}

#[test]
fn hook_not_executable_and_foreign() {
    let hooks = vec![hook(true, false, "#!/bin/sh\nlint\n"), hook(true, true, "git shadow hook x")];
    assert_eq!(
        check_hooks(&hooks),
        vec![(0, HookIssue::NotExecutable), (0, HookIssue::NotCallingShadow)]
    );
}

#[test]
fn test_config_integrity_missing_baseline() {
    let mut config = ShadowConfig::new();
    config.add_overlay("TEAM.md".to_string(), "abc".to_string()).unwrap();
    let states = vec![EntryState { exists: true, is_dir: false, baseline_exists: false }];
    assert_eq!(
        check_config_integrity(&config, &states),
        vec![(0, IntegrityIssue::BaselineMissing)]
    );
}

#[test]
fn test_config_integrity_phantom_dir_missing() {
    let mut config = ShadowConfig::new();
    config.add_phantom(".agent".to_string(), ExcludeMode::GitInfoExclude, true).unwrap();
    config.add_phantom("local.md".to_string(), ExcludeMode::GitInfoExclude, false).unwrap();
    let states = vec![
        EntryState { exists: true, is_dir: false, baseline_exists: false },
        EntryState { exists: true, is_dir: false, baseline_exists: false },
    ];
    assert_eq!(
        check_config_integrity(&config, &states),
        vec![(0, IntegrityIssue::PhantomDirMissing)]
    );
}

#[test]
fn test_add_phantom_rejects_tracked() {
    assert_eq!(
        add_phantom_checks("README.md", true),
        Err(ShadowError::AlreadyTracked("README.md".to_string()))
    );
    assert_eq!(add_phantom_checks("local.md", false), Ok(()));
}

#[test]
fn overlay_gates_in_order() {
    assert_eq!(
        add_overlay_checks("a.md", false, b"\0", 5, false, "/r/a.md"),
        Err(ShadowError::FileNotTracked("a.md".to_string()))
    );
    assert_eq!(
        add_overlay_checks("a.md", true, b"x\0y", 5, false, "/r/a.md"),
        Err(ShadowError::BinaryFile("a.md".to_string()))
    );
    assert_eq!(
        add_overlay_checks("a.md", true, b"text", 2_000_000, false, "/r/a.md"),
        Err(ShadowError::FileTooLarge("/r/a.md".to_string(), 2_000_000, 1_048_576))
    );
    assert_eq!(add_overlay_checks("a.md", true, b"text", 2_000_000, true, "/r/a.md"), Ok(()));
}

#[test]
fn resume_records_head_when_baseline_unchanged() {
    let mut config = ShadowConfig::new();
    config.add_overlay("TEAM.md".to_string(), "old".to_string()).unwrap();
    record_restored(&mut config, "TEAM.md", "new".to_string(), ResumeAction::RestoreAbsent);
    assert_eq!(config.get("TEAM.md").unwrap().baseline_commit.as_deref(), Some("old"));
    record_restored(&mut config, "TEAM.md", "new".to_string(), ResumeAction::RestoreParked);
    assert_eq!(config.get("TEAM.md").unwrap().baseline_commit.as_deref(), Some("new"));
}
