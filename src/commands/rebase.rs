use vstd::prelude::*;

use crate::config::{
    has_key, lemma_lookup_at, lookup, unique_keys, with_commit, FileType, FilesView, ShadowConfig,
};
use crate::error::ShadowError;
use crate::merge::MergeResult;
use crate::text::{str_eq, views};

verus! {

/// What a rebase of one overlay needs once its baseline and HEAD's content are read.
#[derive(Debug, Clone, Copy, PartialEq, Eq, Structural)]
pub enum RebaseDecision {
    /// The baseline is HEAD's content already: nothing changes.
    Unchanged,
    /// Merge the worktree with HEAD's content, over the old baseline.
    Merge,
}

/// What a rebase writes: the merged content to the worktree file, HEAD's
/// content over the baseline (atomically).
pub struct RebaseWrites {
    pub worktree: String,
    pub baseline: String,
    /// Conflict markers went into the worktree file; the user is told.
    pub has_conflicts: bool,
}

/// The overlays that a rebase covers, in registry order: all of them, or only `target`.
pub open spec fn overlays_among(fs: FilesView, target: Option<Seq<char>>) -> Seq<Seq<char>>
    decreases fs.len(),
{
    if fs.len() == 0 {
        Seq::empty()
    } else {
        let e = fs.last();
        let rest = overlays_among(fs.drop_last(), target);
        if e.1.file_type == FileType::Overlay && (target is None || target == Some(e.0)) {
            rest.push(e.0)
        } else {
            rest
        }
    }
}

/// The overlays to rebase. A `target` that names no overlay is an error.
pub fn overlays_to_rebase(config: &ShadowConfig, target: Option<&str>) -> (r: Result<
    Vec<String>,
    ShadowError,
>)
    ensures
        ({
            let tv = match target {
                Some(t) => Some(t@),
                None => None,
            };
            let sel = overlays_among(config.files_v(), tv);
            match target {
                Some(t) if sel.len() == 0 => r matches Err(ShadowError::NotAnOverlay(p)) && p@
                    == t@,
                _ => r matches Ok(v) && views(v@) == sel,
            }
        }),
{
    let ghost fs = config.files_v();
    let ghost tv = match target {
        Some(t) => Some(t@),
        None => None,
    };
    let mut r: Vec<String> = Vec::new();
    let mut i: usize = 0;
    while i < config.files.len()
        invariant
            i <= config.files@.len(),
            fs == config.files_v(),
            tv == match target {
                Some(t) => Some(t@),
                None => None::<Seq<char>>,
            },
            views(r@) == overlays_among(fs.take(i as int), tv),
        decreases config.files.len() - i,
    {
        let (path, entry) = &config.files[i];
        assert(fs.take(i + 1).drop_last() =~= fs.take(i as int));
        assert(fs.take(i + 1).last() == (path@, entry@));
        let ghost before = views(r@);
        let wanted = match target {
            None => true,
            Some(t) => str_eq(path.as_str(), t),
        };
        if entry.file_type == FileType::Overlay && wanted {
            r.push(path.clone());
            assert(views(r@) =~= before.push(path@));
        }
        i = i + 1;
    }
    assert(fs.take(i as int) =~= fs);
    match target {
        Some(t) => {
            if r.len() == 0 {
                return Err(ShadowError::NotAnOverlay(String::from_str(t)));
            }
        },
        None => {},
    }
    Ok(r)
}

/// Whether the overlay `file_path` needs a merge: its baseline against HEAD's
/// content, which is `None` when HEAD does not hold the file.
pub fn rebase_decision(file_path: &str, old_baseline: &str, new_baseline: Option<&str>) -> (r:
    Result<RebaseDecision, ShadowError>)
    ensures
        match new_baseline {
            None => r matches Err(ShadowError::NotInHead(p)) && p@ == file_path@,
            Some(n) => r == Ok::<RebaseDecision, ShadowError>(
                if old_baseline@ == n@ {
                    RebaseDecision::Unchanged
                } else {
                    RebaseDecision::Merge
                },
            ),
        },
{
    match new_baseline {
        None => Err(ShadowError::NotInHead(String::from_str(file_path))),
        Some(n) => if str_eq(old_baseline, n) {
            Ok(RebaseDecision::Unchanged)
        } else {
            Ok(RebaseDecision::Merge)
        },
    }
}

/// Finish the rebase of `file_path` with the result of the merge: the merged
/// content goes to the worktree, HEAD's content becomes the baseline, and the
/// registry records `new_head` as the baseline commit. Conflicts do not stop it.
pub fn rebase_file(
    config: &mut ShadowConfig,
    file_path: &str,
    new_head: String,
    new_baseline: &str,
    merged: MergeResult,
) -> (r: RebaseWrites)
    requires
        old(config).wf(),
    ensures
        final(config).wf(),
        final(config).files_v() == with_commit(old(config).files_v(), file_path@, new_head@),
        final(config).suspended == old(config).suspended,
        final(config).version == old(config).version,
        r.worktree@ == merged.content@,
        r.baseline@ == new_baseline@,
        r.has_conflicts == merged.has_conflicts,
{
    config.set_baseline_commit(file_path, new_head);
    RebaseWrites {
        worktree: merged.content,
        baseline: String::from_str(new_baseline),
        has_conflicts: merged.has_conflicts,
    }
}

/// Rebase advances the baseline: after `rebase_file`, the registry records
/// `head` as the baseline commit of the file, and nothing else changes in its
/// entry or in the set of paths.
pub proof fn lemma_rebase_advances(fs: FilesView, k: Seq<char>, head: Seq<char>)
    requires
        unique_keys(fs),
        has_key(fs, k),
    ensures
        unique_keys(with_commit(fs, k, head)),
        match (lookup(with_commit(fs, k, head), k), lookup(fs, k)) {
            (Some(e), Some(e0)) => e.baseline_commit == Some(head) && e.file_type == e0.file_type
                && e.exclude_mode == e0.exclude_mode && e.is_directory == e0.is_directory
                && e.added_at == e0.added_at,
            _ => false,
        },
{
    let g = with_commit(fs, k, head);
    let i = choose|i: int| 0 <= i < fs.len() && (#[trigger] fs[i]).0 == k;
    assert forall|a: int, b: int| 0 <= a < b < g.len() implies (#[trigger] g[a]).0 != (
    #[trigger] g[b]).0 by {
        assert(g[a].0 == fs[a].0 && g[b].0 == fs[b].0);
    }
    lemma_lookup_at(g, k, i);
    lemma_lookup_at(fs, k, i);
}

} // verus!
