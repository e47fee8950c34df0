use std::collections::BTreeMap;

use git_shadow::commands::rebase::{rebase_decision, rebase_file, RebaseDecision};
use git_shadow::commands::restore;
use git_shadow::config::{ExcludeMode, ShadowConfig};
use git_shadow::disk::{StepKind, TxStep};
use git_shadow::error::ShadowError;
use git_shadow::hooks::post_commit;
use git_shadow::hooks::pre_commit::{
    handle, EntryProbe, PreCommitPlan, PreCommitProbe, PreCommitTransaction,
};
use git_shadow::merge::MergeResult;
use git_shadow::path::encode_path;

/// A repository held in memory: the files that the steps touch.
#[derive(Default, Clone, Debug, PartialEq)]
struct Repo {
    worktree: BTreeMap<String, String>,
    index: BTreeMap<String, String>,
    head: BTreeMap<String, String>,
    baselines: BTreeMap<String, String>,
    stash: BTreeMap<String, String>,
    locked: bool,
    fail_on: Option<(StepKind, String)>,
}

impl Repo {
    fn perform(&mut self, s: &TxStep) -> bool {
        if let Some((k, p)) = &self.fail_on {
            if *k == s.kind && *p == s.path {
                return false;
            }
        }
        let enc = encode_path(&s.path);
        match s.kind {
            StepKind::StashOverlay | StepKind::StashPhantom => match self.worktree.get(&s.path) {
                Some(c) => {
                    self.stash.insert(enc, c.clone());
                }
                None => return false,
            },
            StepKind::RestoreBaseline => match self.baselines.get(&enc) {
                Some(b) => {
                    self.worktree.insert(s.path.clone(), b.clone());
                }
                None => return false,
            },
            StepKind::Stage => match self.worktree.get(&s.path) {
                Some(c) => {
                    self.index.insert(s.path.clone(), c.clone());
                }
                None => {
                    self.index.remove(&s.path);
                }
            },
            StepKind::Unstage => {
                self.index.remove(&s.path);
            }
            StepKind::Unstash => match self.stash.remove(&enc) {
                Some(c) => {
                    self.worktree.insert(s.path.clone(), c);
                }
                None => return false,
            },
            StepKind::ReleaseLock => self.locked = false,
            StepKind::Park | StepKind::Delete => return false,
        }
        true
    }

    fn probe(&self, config: &ShadowConfig) -> PreCommitProbe {
        let entries = config
            .files
            .iter()
            .map(|(p, _)| EntryProbe {
                worktree_exists: self.worktree.contains_key(p),
                baseline_exists: self.baselines.contains_key(&encode_path(p)),
                index_differs: self.index.get(p) != self.head.get(p),
                worktree_differs: self.worktree.get(p) != self.index.get(p),
            })
            .collect();
        PreCommitProbe { stash_has_files: !self.stash.is_empty(), entries }
    }

    /// Pre-commit as the hook runs it; the journal rolls back a failed step.
    fn pre_commit(&mut self, config: &ShadowConfig) -> Result<(), ShadowError> {
        self.locked = true;
        let probe = self.probe(config);
        match handle(config, &probe) {
            Err(e) => {
                self.locked = false;
                Err(e)
            }
            Ok(PreCommitPlan::NothingToDo) => {
                self.locked = false;
                Ok(())
            }
            Ok(PreCommitPlan::Transform(steps)) => {
                let mut tx = PreCommitTransaction::new();
                for s in &steps {
                    if !self.perform(s) {
                        for r in tx.rollback() {
                            self.perform(&r);
                        }
                        self.locked = false;
                        return Err(ShadowError::GitCommand {
                            command: s.path.clone(),
                            stderr: String::new(),
                        });
                    }
                    tx.record(s);
                }
                Ok(())
            }
        }
    }

    fn commit(&mut self) {
        self.head = self.index.clone();
    }

    fn stash_names(&self) -> Vec<String> {
        self.stash.keys().cloned().collect()
    }

    fn post_commit(&mut self) {
        let steps = post_commit::handle(&self.stash_names());
        let mut failed = 0usize;
        for s in &steps {
            if !post_commit::performs(s.kind, failed) {
                continue;
            }
            if !self.perform(s) {
                failed += 1;
            }
        }
    }
}

fn overlay_repo(committed: &str, shadow: &str) -> (Repo, ShadowConfig) {
    let mut config = ShadowConfig::new();
    config.add_overlay("TEAM.md".to_string(), "c1".to_string()).unwrap();
    let mut repo = Repo::default();
    repo.head.insert("TEAM.md".into(), committed.into());
    repo.index.insert("TEAM.md".into(), committed.into());
    repo.baselines.insert("TEAM.md".into(), committed.into());
    repo.worktree.insert("TEAM.md".into(), shadow.into());
    (repo, config)
}

#[test]
fn overlay_full_cycle() {
    let (mut repo, config) = overlay_repo("# Team\n", "# Team\n# Mine\n");
    repo.index.insert("TEAM.md".into(), "# Team\n# Mine\n".into());
    repo.pre_commit(&config).unwrap();
    assert_eq!(repo.worktree["TEAM.md"], "# Team\n");
    assert_eq!(repo.stash["TEAM.md"], "# Team\n# Mine\n");
    assert!(repo.locked);
    repo.commit();
    repo.post_commit();
    assert_eq!(repo.worktree["TEAM.md"], "# Team\n# Mine\n");
    assert!(repo.stash.is_empty());
    assert!(!repo.locked);
    assert_eq!(repo.head["TEAM.md"], "# Team\n");
}

#[test]
fn phantom_full_cycle() {
    let mut config = ShadowConfig::new();
    config
        .add_phantom("local.md".to_string(), ExcludeMode::GitInfoExclude, false)
        .unwrap();
    let mut repo = Repo::default();
    repo.head.insert("README.md".into(), "# Readme\n".into());
    repo.index.insert("README.md".into(), "# Readme\n".into());
    repo.worktree.insert("README.md".into(), "# Readme\n".into());
    repo.worktree.insert("local.md".into(), "# Notes\n".into());
    repo.index.insert("local.md".into(), "# Notes\n".into());
    repo.pre_commit(&config).unwrap();
    repo.commit();
    repo.post_commit();
    assert_eq!(repo.worktree["local.md"], "# Notes\n");
    assert!(!repo.head.contains_key("local.md"));
    assert!(repo.stash.is_empty());
    assert!(!repo.locked);
}

#[test]
fn phantom_directory_is_only_unstaged() {
    let mut config = ShadowConfig::new();
    config.add_phantom(".agent".to_string(), ExcludeMode::GitInfoExclude, true).unwrap();
    let mut repo = Repo::default();
    repo.index.insert(".agent".into(), "x".into());
    let probe = repo.probe(&config);
    match handle(&config, &probe).unwrap() {
        PreCommitPlan::Transform(steps) => {
            assert_eq!(steps.len(), 1);
            assert_eq!(steps[0].kind, StepKind::Unstage);
            assert_eq!(steps[0].path, ".agent");
        }
        PreCommitPlan::NothingToDo => panic!("registry is not empty"),
    }
}

#[test]
fn partial_stage_rejection() {
    let (mut repo, config) = overlay_repo("# Team\n", "B");
    repo.index.insert("TEAM.md".into(), "A".into());
    let before = repo.clone();
    let r = repo.pre_commit(&config);
    assert_eq!(r, Err(ShadowError::PartialStage("TEAM.md".to_string())));
    assert_eq!(repo, before);
}

#[test]
fn crash_mid_commit_then_restore() {
    let (mut repo, config) = overlay_repo("# Team\n", "# Team\n# Mine\n");
    repo.locked = true;
    let probe = repo.probe(&config);
    let steps = match handle(&config, &probe).unwrap() {
        PreCommitPlan::Transform(s) => s,
        PreCommitPlan::NothingToDo => panic!("registry is not empty"),
    };
    for k in 0..=steps.len() {
        let mut crashed = repo.clone();
        for s in &steps[..k] {
            assert!(crashed.perform(s));
        }
        for s in restore::run(&crashed.stash_names(), None) {
            crashed.perform(&s);
        }
        assert_eq!(crashed.worktree["TEAM.md"], "# Team\n# Mine\n", "prefix {}", k);
        assert!(crashed.stash.is_empty());
        assert!(!crashed.locked);
    }
}

#[test]
fn failure_mid_transform_rolls_back() {
    let (mut repo, mut config) = overlay_repo("# Team\n", "# Team\n# Mine\n");
    config.add_phantom("notes.md".to_string(), ExcludeMode::NoExclude, false).unwrap();
    repo.worktree.insert("notes.md".into(), "mine".into());
    repo.fail_on = Some((StepKind::Unstage, "notes.md".to_string()));
    let before = repo.worktree.clone();
    assert!(repo.pre_commit(&config).is_err());
    assert_eq!(repo.worktree, before);
    assert!(repo.stash.is_empty());
    assert!(!repo.locked);
    assert_eq!(repo.index["TEAM.md"], "# Team\n# Mine\n");
}

#[test]
fn stash_left_over_blocks_commit() {
    let (mut repo, config) = overlay_repo("# Team\n", "x");
    repo.stash.insert("other.md".into(), "y".into());
    assert_eq!(repo.pre_commit(&config), Err(ShadowError::StashRemaining));
}

#[test]
fn test_missing_baseline_blocks_commit() {
    let (mut repo, config) = overlay_repo("# Team\n", "x");
    repo.baselines.clear();
    assert_eq!(
        repo.pre_commit(&config),
        Err(ShadowError::BaselineMissing("TEAM.md".to_string()))
    );
    repo.worktree.clear();
    assert_eq!(
        repo.pre_commit(&config),
        Err(ShadowError::FileMissing("TEAM.md".to_string()))
    );
}

#[test]
fn test_empty_config_releases_lock() {
    let mut repo = Repo::default();
    repo.pre_commit(&ShadowConfig::new()).unwrap();
    assert!(!repo.locked);
}

#[test]
fn test_empty_stash_releases_lock() {
    let steps = post_commit::handle(&Vec::new());
    assert_eq!(steps.len(), 1);
    assert_eq!(steps[0].kind, StepKind::ReleaseLock);
}

#[test]
fn post_commit_decodes_stash_names() {
    let steps = post_commit::handle(&vec!["src%2FTEAM.md".to_string()]);
    assert_eq!(steps[0].kind, StepKind::Unstash);
    assert_eq!(steps[0].path, "src/TEAM.md");
}

#[test]
fn test_restores_specific_file() {
    let names = vec!["a.md".to_string(), "src%2Fb.md".to_string()];
    let steps = restore::run(&names, Some("src/b.md"));
    assert_eq!(steps.len(), 2);
    assert_eq!(steps[0].path, "src/b.md");
    assert_eq!(steps[1].kind, StepKind::ReleaseLock);
}

#[test]
fn rebase_preserves_shadow() {
    let mut config = ShadowConfig::new();
    config.add_overlay("TEAM.md".to_string(), "c1".to_string()).unwrap();
    let old = "l1\nl2\nl3\n";
    let new = "l1\nl2 updated\nl3\n";
    assert_eq!(rebase_decision("TEAM.md", old, Some(new)), Ok(RebaseDecision::Merge));
    let merged = MergeResult {
        content: "l1\nl2 updated\nl3\naddition\n".to_string(),
        has_conflicts: false,
    };
    let w = rebase_file(&mut config, "TEAM.md", "c2".to_string(), new, merged);
    assert_eq!(w.worktree, "l1\nl2 updated\nl3\naddition\n");
    assert_eq!(w.baseline, new);
    assert!(!w.has_conflicts);
    assert_eq!(config.get("TEAM.md").unwrap().baseline_commit.as_deref(), Some("c2"));
}

#[test]
fn rebase_is_a_no_op_when_baseline_is_head() {
    assert_eq!(rebase_decision("a.md", "x\n", Some("x\n")), Ok(RebaseDecision::Unchanged));
    assert_eq!(
        rebase_decision("a.md", "x\n", None),
        Err(ShadowError::NotInHead("a.md".to_string()))
    );
}

#[test]
fn post_commit_keeps_lock_after_a_failed_restore() {
    assert!(!post_commit::performs(StepKind::ReleaseLock, 1));
    assert!(post_commit::performs(StepKind::ReleaseLock, 0));
    assert!(post_commit::performs(StepKind::Unstash, 2));
    let (mut repo, config) = overlay_repo("# Team\n", "mine\n");
    repo.pre_commit(&config).unwrap();
    repo.commit();
    repo.fail_on = Some((StepKind::Unstash, "TEAM.md".to_string()));
    repo.post_commit();
    assert!(repo.locked);
    assert_eq!(repo.stash.len(), 1);
}
