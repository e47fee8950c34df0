use vstd::prelude::*;

use crate::config::{with_commit, ShadowConfig};
use crate::error::ShadowError;
use crate::text::str_eq;

verus! {

/// What resume does for one overlay, once its parked content, its baseline and
/// HEAD's content are known.
#[derive(Debug, Clone, Copy, PartialEq, Eq, Structural)]
pub enum ResumeAction {
    /// Nothing was parked for the file: warn and go on.
    NothingParked,
    /// Write the parked content back as it is; HEAD's content is the baseline
    /// still, so HEAD becomes the baseline commit.
    RestoreParked,
    /// Write the parked content back as it is; HEAD lacks the file, so the
    /// baseline and its commit stay.
    RestoreAbsent,
    /// Merge the parked content with HEAD's content over the old baseline, then
    /// finish as a rebase does.
    Merge,
}

pub open spec fn resume_action(parked: bool, old_baseline: Seq<char>, new_baseline: Option<Seq<char>>) -> ResumeAction {
    if !parked {
        ResumeAction::NothingParked
    } else {
        match new_baseline {
            None => ResumeAction::RestoreAbsent,
            Some(n) => if n == old_baseline {
                ResumeAction::RestoreParked
            } else {
                ResumeAction::Merge
            },
        }
    }
}

/// Resume applies only to suspended shadow state.
pub fn resume_guard(config: &ShadowConfig) -> (r: Result<(), ShadowError>)
    ensures
        config.suspended ==> r is Ok,
        !config.suspended ==> r == Err::<(), ShadowError>(ShadowError::NotSuspended),
{
    if config.suspended {
        Ok(())
    } else {
        Err(ShadowError::NotSuspended)
    }
}

/// The action for one overlay on resume.
pub fn resume_overlay(parked: bool, old_baseline: &str, new_baseline: Option<&str>) -> (r:
    ResumeAction)
    ensures
        r == resume_action(
            parked,
            old_baseline@,
            match new_baseline {
                Some(n) => Some(n@),
                None => None,
            },
        ),
{
    if !parked {
        return ResumeAction::NothingParked;
    }
    match new_baseline {
        None => ResumeAction::RestoreAbsent,
        Some(n) => if str_eq(n, old_baseline) {
            ResumeAction::RestoreParked
        } else {
            ResumeAction::Merge
        },
    }
}

/// The registry update after the parked content of `path` is written back
/// unchanged: with `RestoreParked`, `new_head` becomes its baseline commit (its
/// baseline is HEAD's content); otherwise nothing changes. After a merge,
/// `rebase_file` records the commit instead.
pub fn record_restored(config: &mut ShadowConfig, path: &str, new_head: String, action: ResumeAction)
    requires
        old(config).wf(),
    ensures
        final(config).wf(),
        final(config).version == old(config).version,
        final(config).suspended == old(config).suspended,
        action == ResumeAction::RestoreParked ==> final(config).files_v() == with_commit(
            old(config).files_v(),
            path@,
            new_head@,
        ),
        action != ResumeAction::RestoreParked ==> final(config).files_v() == old(config).files_v(),
{
    if action == ResumeAction::RestoreParked {
        config.set_baseline_commit(path, new_head);
    }
}

} // verus!
