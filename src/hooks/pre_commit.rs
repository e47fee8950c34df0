use vstd::prelude::*;

use crate::config::{FileEntryView, FileType, FilesView, ShadowConfig};
use crate::disk::{step, steps_view, StepKind, StepView, TxStep};
use crate::error::ShadowError;
use crate::text::str_eq;

verus! {

/// What the caller observed of one registry entry before the transaction.
#[derive(Debug, Clone, Copy)]
pub struct EntryProbe {
    /// The worktree file exists.
    pub worktree_exists: bool,
    /// The baseline file exists.
    pub baseline_exists: bool,
    /// The index differs from HEAD for the path.
    pub index_differs: bool,
    /// The worktree differs from the index for the path.
    pub worktree_differs: bool,
}

/// What the caller observed before the transaction: whether the stash holds
/// files, and one probe per registry entry, in registry order.
pub struct PreCommitProbe {
    pub stash_has_files: bool,
    pub entries: Vec<EntryProbe>,
}

/// What pre-commit does once the lock is held.
pub enum PreCommitPlan {
    /// The registry is empty: release the lock and succeed.
    NothingToDo,
    /// Perform these steps in order; on a failure, roll back and release the lock.
    /// On success the lock stays held for post-commit.
    Transform(Vec<TxStep>),
}

/// An overlay whose worktree file or baseline is missing.
pub open spec fn fails_hard(e: (Seq<char>, FileEntryView), p: EntryProbe) -> bool {
    e.1.file_type == FileType::Overlay && (!p.worktree_exists || !p.baseline_exists)
}

/// An overlay that is partly staged.
pub open spec fn partly_staged(e: (Seq<char>, FileEntryView), p: EntryProbe) -> bool {
    e.1.file_type == FileType::Overlay && p.index_differs && p.worktree_differs
}

/// The first entry from `i` on that fails the hard checks, or the length.
pub open spec fn first_hard_failure(fs: FilesView, probe: Seq<EntryProbe>, i: int) -> int
    decreases fs.len() - i,
{
    if i < 0 || i >= fs.len() {
        fs.len() as int
    } else if fails_hard(fs[i], probe[i]) {
        i
    } else {
        first_hard_failure(fs, probe, i + 1)
    }
}

/// The first entry from `i` on that is partly staged, or the length.
pub open spec fn first_partial(fs: FilesView, probe: Seq<EntryProbe>, i: int) -> int
    decreases fs.len() - i,
{
    if i < 0 || i >= fs.len() {
        fs.len() as int
    } else if partly_staged(fs[i], probe[i]) {
        i
    } else {
        first_partial(fs, probe, i + 1)
    }
}

proof fn lemma_first_bounds(fs: FilesView, probe: Seq<EntryProbe>, i: int)
    requires
        0 <= i <= fs.len(),
    ensures
        i <= first_hard_failure(fs, probe, i) <= fs.len(),
        i <= first_partial(fs, probe, i) <= fs.len(),
    decreases fs.len() - i,
{
    if i < fs.len() {
        lemma_first_bounds(fs, probe, i + 1);
    }
}

/// A partly staged overlay at `i` is found by the partial-stage check, at `i` or
/// at an earlier one.
pub proof fn lemma_partial_stage_found(fs: FilesView, probe: Seq<EntryProbe>, i: int, j: int)
    requires
        0 <= j <= i < fs.len(),
        probe.len() == fs.len(),
        partly_staged(fs[i], probe[i]),
    ensures
        first_partial(fs, probe, j) <= i,
        partly_staged(fs[first_partial(fs, probe, j)], probe[first_partial(fs, probe, j)]),
    decreases i - j,
{
    if !partly_staged(fs[j], probe[j]) {
        lemma_partial_stage_found(fs, probe, i, j + 1);
    }
}

/// The steps for one entry.
pub open spec fn entry_steps(e: (Seq<char>, FileEntryView), p: EntryProbe) -> Seq<StepView> {
    let path = e.0;
    if e.1.file_type == FileType::Overlay {
        seq![
            (StepKind::StashOverlay, path),
            (StepKind::RestoreBaseline, path),
            (StepKind::Stage, path),
        ]
    } else if e.1.is_directory || !p.worktree_exists {
        seq![(StepKind::Unstage, path)]
    } else {
        seq![(StepKind::StashPhantom, path), (StepKind::Unstage, path)]
    }
}

/// The steps for all entries, in registry order.
pub open spec fn transform_steps(fs: FilesView, probe: Seq<EntryProbe>) -> Seq<StepView>
    decreases fs.len(),
{
    if fs.len() == 0 {
        Seq::empty()
    } else {
        transform_steps(fs.drop_last(), probe.take(fs.len() - 1)) + entry_steps(
            fs.last(),
            probe[fs.len() - 1],
        )
    }
}

/// The paths of overlays whose baseline commit is not `head`.
pub open spec fn drifted(fs: FilesView, head: Seq<char>) -> Seq<Seq<char>>
    decreases fs.len(),
{
    if fs.len() == 0 {
        Seq::empty()
    } else {
        let e = fs.last();
        let rest = drifted(fs.drop_last(), head);
        if e.1.file_type == FileType::Overlay && (e.1.baseline_commit matches Some(b) && b
            != head) {
            rest.push(e.0)
        } else {
            rest
        }
    }
}

/// The hard checks: no stash left from an earlier transaction, and every overlay
/// has its worktree file and its baseline.
pub fn run_hard_checks(config: &ShadowConfig, probe: &PreCommitProbe) -> (r: Result<(), ShadowError>)
    requires
        probe.entries@.len() == config.files@.len(),
    ensures
        ({
            let fs = config.files_v();
            let pr = probe.entries@;
            let k = first_hard_failure(fs, pr, 0);
            if probe.stash_has_files {
                r == Err::<(), ShadowError>(ShadowError::StashRemaining)
            } else if k == fs.len() {
                r is Ok
            } else if !pr[k].worktree_exists {
                r matches Err(ShadowError::FileMissing(p)) && p@ == fs[k].0
            } else {
                r matches Err(ShadowError::BaselineMissing(p)) && p@ == fs[k].0
            }
        }),
{
    if probe.stash_has_files {
        return Err(ShadowError::StashRemaining);
    }
    let ghost fs = config.files_v();
    let mut i: usize = 0;
    while i < config.files.len()
        invariant
            i <= config.files@.len(),
            fs == config.files_v(),
            !probe.stash_has_files,
            probe.entries@.len() == fs.len(),
            first_hard_failure(fs, probe.entries@, i as int) == first_hard_failure(
                fs,
                probe.entries@,
                0,
            ),
        decreases config.files.len() - i,
    {
        let (path, entry) = &config.files[i];
        let pr = probe.entries[i];
        assert(fs[i as int] == (path@, entry@));
        assert(probe.entries@[i as int] == pr);
        if entry.file_type == FileType::Overlay {
            if !pr.worktree_exists {
                return Err(ShadowError::FileMissing(path.clone()));
            }
            if !pr.baseline_exists {
                return Err(ShadowError::BaselineMissing(path.clone()));
            }
        }
        i = i + 1;
    }
    Ok(())
}

/// Refuse the commit when an overlay is partly staged: the transaction replaces
/// its index entry whole, which would drop the staged hunks.
pub fn detect_partial_staging(config: &ShadowConfig, probe: &PreCommitProbe) -> (r: Result<
    (),
    ShadowError,
>)
    requires
        probe.entries@.len() == config.files@.len(),
    ensures
        ({
            let fs = config.files_v();
            let k = first_partial(fs, probe.entries@, 0);
            if k == fs.len() {
                r is Ok
            } else {
                r matches Err(ShadowError::PartialStage(p)) && p@ == fs[k].0
            }
        }),
{
    let ghost fs = config.files_v();
    let mut i: usize = 0;
    while i < config.files.len()
        invariant
            i <= config.files@.len(),
            fs == config.files_v(),
            probe.entries@.len() == fs.len(),
            first_partial(fs, probe.entries@, i as int) == first_partial(fs, probe.entries@, 0),
        decreases config.files.len() - i,
    {
        let (path, entry) = &config.files[i];
        let pr = probe.entries[i];
        assert(fs[i as int] == (path@, entry@));
        if entry.file_type == FileType::Overlay && pr.index_differs && pr.worktree_differs {
            return Err(ShadowError::PartialStage(path.clone()));
        }
        i = i + 1;
    }
    Ok(())
}

/// The overlays whose baseline commit is not `head`: a rebase is due. These are
/// warnings only.
pub fn run_soft_checks(config: &ShadowConfig, head: &str) -> (r: Vec<String>)
    ensures
        crate::text::views(r@) == drifted(config.files_v(), head@),
{
    let ghost fs = config.files_v();
    let mut r: Vec<String> = Vec::new();
    let mut i: usize = 0;
    while i < config.files.len()
        invariant
            i <= config.files@.len(),
            fs == config.files_v(),
            crate::text::views(r@) == drifted(fs.take(i as int), head@),
        decreases config.files.len() - i,
    {
        let (path, entry) = &config.files[i];
        assert(fs.take(i + 1).drop_last() =~= fs.take(i as int));
        assert(fs.take(i + 1).last() == (path@, entry@));
        let ghost before = crate::text::views(r@);
        if entry.file_type == FileType::Overlay {
            if let Some(b) = &entry.baseline_commit {
                if !str_eq(b.as_str(), head) {
                    r.push(path.clone());
                    assert(crate::text::views(r@) =~= before.push(path@));
                }
            }
        }
        i = i + 1;
    }
    assert(fs.take(i as int) =~= fs);
    r
}

/// The steps of the transform phase, in registry order.
pub fn process_files(config: &ShadowConfig, probe: &PreCommitProbe) -> (r: Vec<TxStep>)
    requires
        probe.entries@.len() == config.files@.len(),
    ensures
        steps_view(r@) == transform_steps(config.files_v(), probe.entries@),
{
    let ghost fs = config.files_v();
    let ghost pr = probe.entries@;
    let mut r: Vec<TxStep> = Vec::new();
    let mut i: usize = 0;
    while i < config.files.len()
        invariant
            i <= config.files@.len(),
            fs == config.files_v(),
            pr == probe.entries@,
            pr.len() == fs.len(),
            steps_view(r@) == transform_steps(fs.take(i as int), pr.take(i as int)),
        decreases config.files.len() - i,
    {
        let (path, entry) = &config.files[i];
        let p = probe.entries[i];
        let ghost before = steps_view(r@);
        assert(fs.take(i + 1).drop_last() =~= fs.take(i as int));
        assert(pr.take(i + 1).take(i as int) =~= pr.take(i as int));
        assert(fs.take(i + 1).last() == (path@, entry@));
        assert(pr.take(i + 1)[i as int] == p);
        if entry.file_type == FileType::Overlay {
            r.push(step(StepKind::StashOverlay, path.as_str()));
            r.push(step(StepKind::RestoreBaseline, path.as_str()));
            r.push(step(StepKind::Stage, path.as_str()));
        } else if entry.is_directory || !p.worktree_exists {
            r.push(step(StepKind::Unstage, path.as_str()));
        } else {
            r.push(step(StepKind::StashPhantom, path.as_str()));
            r.push(step(StepKind::Unstage, path.as_str()));
        }
        assert(steps_view(r@) =~= before + entry_steps((path@, entry@), p));
        i = i + 1;
    }
    assert(fs.take(i as int) =~= fs);
    assert(pr.take(i as int) =~= pr);
    r
}

/// The registry is not empty, the stash is empty, every overlay has its files,
/// and some overlay is partly staged.
pub open spec fn partial_stage_blocks(fs: FilesView, pr: Seq<EntryProbe>, stash_has_files: bool) -> bool {
    &&& fs.len() > 0
    &&& !stash_has_files
    &&& first_hard_failure(fs, pr, 0) == fs.len()
    &&& exists|i: int| 0 <= i < fs.len() && partly_staged(#[trigger] fs[i], pr[i])
}

/// The pre-commit decision, once the lock is held: nothing to do for an empty
/// registry; otherwise the hard checks, the partial-stage check, and the steps
/// that put each overlay's baseline in the index and keep phantoms out of it.
/// On an error nothing has been changed; the caller releases the lock.
pub fn handle(config: &ShadowConfig, probe: &PreCommitProbe) -> (r: Result<
    PreCommitPlan,
    ShadowError,
>)
    requires
        probe.entries@.len() == config.files@.len(),
    ensures
        ({
            let fs = config.files_v();
            let pr = probe.entries@;
            let k = first_hard_failure(fs, pr, 0);
            let m = first_partial(fs, pr, 0);
            if fs.len() == 0 {
                r matches Ok(PreCommitPlan::NothingToDo)
            } else if probe.stash_has_files {
                r == Err::<PreCommitPlan, ShadowError>(ShadowError::StashRemaining)
            } else if k < fs.len() {
                if !pr[k].worktree_exists {
                    r matches Err(ShadowError::FileMissing(p)) && p@ == fs[k].0
                } else {
                    r matches Err(ShadowError::BaselineMissing(p)) && p@ == fs[k].0
                }
            } else if m < fs.len() {
                r matches Err(ShadowError::PartialStage(p)) && p@ == fs[m].0
            } else {
                r matches Ok(PreCommitPlan::Transform(steps)) && steps_view(steps@)
                    == transform_steps(fs, pr)
            }
        }),
        partial_stage_blocks(config.files_v(), probe.entries@, probe.stash_has_files) ==> (
        r matches Err(ShadowError::PartialStage(_))),
{
    if config.files.len() == 0 {
        return Ok(PreCommitPlan::NothingToDo);
    }
    proof {
        lemma_first_bounds(config.files_v(), probe.entries@, 0);
        if partial_stage_blocks(config.files_v(), probe.entries@, probe.stash_has_files) {
            let i = choose|i: int|
                0 <= i < config.files_v().len() && partly_staged(
                    #[trigger] config.files_v()[i],
                    probe.entries@[i],
                );
            lemma_partial_stage_found(config.files_v(), probe.entries@, i, 0);
        }
    }
    match run_hard_checks(config, probe) {
        Err(e) => {
            return Err(e);
        },
        Ok(()) => {},
    }
    match detect_partial_staging(config, probe) {
        Err(e) => {
            return Err(e);
        },
        Ok(()) => {},
    }
    Ok(PreCommitPlan::Transform(process_files(config, probe)))
}

/// The journal of a running transaction, for rollback.
pub struct PreCommitTransaction {
    /// Overlays whose worktree content is in the stash.
    pub stashed_overlays: Vec<String>,
    /// Phantoms whose worktree content is in the stash.
    pub stashed_phantoms: Vec<String>,
    /// Overlays whose worktree file now holds the baseline.
    pub overwritten: Vec<String>,
}

impl PreCommitTransaction {
    pub fn new() -> (r: Self)
        ensures
            r.stashed_overlays@.len() == 0,
            r.stashed_phantoms@.len() == 0,
            r.overwritten@.len() == 0,
    {
        PreCommitTransaction {
            stashed_overlays: Vec::new(),
            stashed_phantoms: Vec::new(),
            overwritten: Vec::new(),
        }
    }

    /// Note a step that has been performed.
    pub fn record(&mut self, s: &TxStep)
        ensures
            crate::text::views(final(self).stashed_overlays@) == if s.kind
                == StepKind::StashOverlay {
                crate::text::views(old(self).stashed_overlays@).push(s.path@)
            } else {
                crate::text::views(old(self).stashed_overlays@)
            },
            crate::text::views(final(self).stashed_phantoms@) == if s.kind
                == StepKind::StashPhantom {
                crate::text::views(old(self).stashed_phantoms@).push(s.path@)
            } else {
                crate::text::views(old(self).stashed_phantoms@)
            },
            crate::text::views(final(self).overwritten@) == if s.kind
                == StepKind::RestoreBaseline {
                crate::text::views(old(self).overwritten@).push(s.path@)
            } else {
                crate::text::views(old(self).overwritten@)
            },
    {
        let ghost o = crate::text::views(self.stashed_overlays@);
        let ghost p = crate::text::views(self.stashed_phantoms@);
        let ghost w = crate::text::views(self.overwritten@);
        match s.kind {
            StepKind::StashOverlay => {
                self.stashed_overlays.push(s.path.clone());
                assert(crate::text::views(self.stashed_overlays@) =~= o.push(s.path@));
            },
            StepKind::StashPhantom => {
                self.stashed_phantoms.push(s.path.clone());
                assert(crate::text::views(self.stashed_phantoms@) =~= p.push(s.path@));
            },
            StepKind::RestoreBaseline => {
                self.overwritten.push(s.path.clone());
                assert(crate::text::views(self.overwritten@) =~= w.push(s.path@));
            },
            _ => {},
        }
    }

    /// The rollback: every stashed file written back to the worktree, then every
    /// overwritten overlay staged again. Each step is best-effort.
    pub fn rollback(&self) -> (r: Vec<TxStep>)
        ensures
            steps_view(r@) == rollback_steps(
                crate::text::views(self.stashed_overlays@) + crate::text::views(
                    self.stashed_phantoms@,
                ),
                crate::text::views(self.overwritten@),
            ),
    {
        let mut r: Vec<TxStep> = Vec::new();
        let ghost stashed = crate::text::views(self.stashed_overlays@) + crate::text::views(
            self.stashed_phantoms@,
        );
        let mut i: usize = 0;
        while i < self.stashed_overlays.len()
            invariant
                i <= self.stashed_overlays@.len(),
                steps_view(r@) == each_step(StepKind::Unstash, stashed.take(i as int)),
                stashed == crate::text::views(self.stashed_overlays@) + crate::text::views(
                    self.stashed_phantoms@,
                ),
            decreases self.stashed_overlays.len() - i,
        {
            let ghost before = steps_view(r@);
            assert(stashed.take(i + 1).drop_last() =~= stashed.take(i as int));
            r.push(step(StepKind::Unstash, self.stashed_overlays[i].as_str()));
            assert(steps_view(r@) =~= before.push((StepKind::Unstash, stashed[i as int])));
            i = i + 1;
        }
        let n = self.stashed_overlays.len();
        let mut j: usize = 0;
        while j < self.stashed_phantoms.len()
            invariant
                n == self.stashed_overlays@.len(),
                j <= self.stashed_phantoms@.len(),
                steps_view(r@) == each_step(StepKind::Unstash, stashed.take(n + j)),
                stashed == crate::text::views(self.stashed_overlays@) + crate::text::views(
                    self.stashed_phantoms@,
                ),
            decreases self.stashed_phantoms.len() - j,
        {
            let ghost before = steps_view(r@);
            assert(stashed.take(n + j + 1).drop_last() =~= stashed.take(n + j));
            r.push(step(StepKind::Unstash, self.stashed_phantoms[j].as_str()));
            assert(steps_view(r@) =~= before.push((StepKind::Unstash, stashed[n + j])));
            j = j + 1;
        }
        assert(stashed.take(n + j) =~= stashed);
        let ghost first = steps_view(r@);
        let ghost ow = crate::text::views(self.overwritten@);
        let mut k: usize = 0;
        while k < self.overwritten.len()
            invariant
                k <= self.overwritten@.len(),
                ow == crate::text::views(self.overwritten@),
                steps_view(r@) == first + each_step(StepKind::Stage, ow.take(k as int)),
            decreases self.overwritten.len() - k,
        {
            let ghost before = steps_view(r@);
            assert(ow.take(k + 1).drop_last() =~= ow.take(k as int));
            r.push(step(StepKind::Stage, self.overwritten[k].as_str()));
            assert(steps_view(r@) =~= before.push((StepKind::Stage, ow[k as int])));
            k = k + 1;
        }
        assert(ow.take(k as int) =~= ow);
        r
    }
}

/// One step of the given kind for each path, in order.
pub open spec fn each_step(kind: StepKind, paths: Seq<Seq<char>>) -> Seq<StepView>
    decreases paths.len(),
{
    if paths.len() == 0 {
        Seq::empty()
    } else {
        each_step(kind, paths.drop_last()).push((kind, paths.last()))
    }
}

/// The rollback of a transaction that stashed `stashed` and overwrote `overwritten`.
pub open spec fn rollback_steps(stashed: Seq<Seq<char>>, overwritten: Seq<Seq<char>>) -> Seq<
    StepView,
> {
    each_step(StepKind::Unstash, stashed) + each_step(StepKind::Stage, overwritten)
}

} // verus!
