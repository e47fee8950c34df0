use vstd::prelude::*;

use crate::config::{FileType, FilesView, ShadowConfig};
use crate::disk::{step, steps_view, StepKind, StepView, TxStep};
use crate::error::ShadowError;
use crate::lock::LockStatus;

verus! {

/// The steps that park one entry: an overlay's shadow content goes to the
/// `suspended` directory and its baseline back to the worktree; a phantom file
/// that exists is parked and deleted. Phantom directories stay.
pub open spec fn park_steps(e: (Seq<char>, crate::config::FileEntryView), exists: bool) -> Seq<StepView> {
    if e.1.file_type == FileType::Overlay {
        seq![(StepKind::Park, e.0), (StepKind::RestoreBaseline, e.0)]
    } else if !e.1.is_directory && exists {
        seq![(StepKind::Park, e.0), (StepKind::Delete, e.0)]
    } else {
        Seq::empty()
    }
}

pub open spec fn suspend_all_steps(fs: FilesView, exists: Seq<bool>) -> Seq<StepView>
    decreases fs.len(),
{
    if fs.len() == 0 {
        Seq::empty()
    } else {
        suspend_all_steps(fs.drop_last(), exists.take(fs.len() - 1)) + park_steps(
            fs.last(),
            exists[fs.len() - 1],
        )
    }
}

/// Suspend is refused while suspended already, while a lockfile is present (a
/// commit is under way), and while the stash holds files.
pub fn suspend_guard(config: &ShadowConfig, lock: &LockStatus, stash_has_files: bool) -> (r: Result<
    (),
    ShadowError,
>)
    ensures
        config.suspended ==> r == Err::<(), ShadowError>(ShadowError::AlreadySuspended),
        !config.suspended && !(lock is Free) ==> r == Err::<(), ShadowError>(
            ShadowError::CommitInProgress,
        ),
        !config.suspended && lock is Free && stash_has_files ==> r == Err::<(), ShadowError>(
            ShadowError::StashRemaining,
        ),
        !config.suspended && lock is Free && !stash_has_files ==> r is Ok,
{
    if config.suspended {
        return Err(ShadowError::AlreadySuspended);
    }
    match lock {
        LockStatus::Free => {},
        _ => {
            return Err(ShadowError::CommitInProgress);
        },
    }
    if stash_has_files {
        return Err(ShadowError::StashRemaining);
    }
    Ok(())
}

/// The steps of suspend, in registry order; `worktree_exists` tells, per entry,
/// whether its worktree file exists. Afterwards the caller sets `suspended`.
pub fn suspend_steps(config: &ShadowConfig, worktree_exists: &Vec<bool>) -> (r: Vec<TxStep>)
    requires
        worktree_exists@.len() == config.files@.len(),
    ensures
        steps_view(r@) == suspend_all_steps(config.files_v(), worktree_exists@),
{
    let ghost fs = config.files_v();
    let ghost ex = worktree_exists@;
    let mut r: Vec<TxStep> = Vec::new();
    let mut i: usize = 0;
    while i < config.files.len()
        invariant
            i <= config.files@.len(),
            fs == config.files_v(),
            ex == worktree_exists@,
            ex.len() == fs.len(),
            steps_view(r@) == suspend_all_steps(fs.take(i as int), ex.take(i as int)),
        decreases config.files.len() - i,
    {
        let (path, entry) = &config.files[i];
        let exists = worktree_exists[i];
        let ghost before = steps_view(r@);
        assert(fs.take(i + 1).drop_last() =~= fs.take(i as int));
        assert(ex.take(i + 1).take(i as int) =~= ex.take(i as int));
        assert(fs.take(i + 1).last() == (path@, entry@));
        assert(ex.take(i + 1)[i as int] == exists);
        if entry.file_type == FileType::Overlay {
            r.push(step(StepKind::Park, path.as_str()));
            r.push(step(StepKind::RestoreBaseline, path.as_str()));
        } else if !entry.is_directory && exists {
            r.push(step(StepKind::Park, path.as_str()));
            r.push(step(StepKind::Delete, path.as_str()));
        }
        assert(steps_view(r@) =~= before + park_steps((path@, entry@), exists));
        i = i + 1;
    }
    assert(fs.take(i as int) =~= fs);
    assert(ex.take(i as int) =~= ex);
    r
}

} // verus!
