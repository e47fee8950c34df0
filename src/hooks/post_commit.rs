use vstd::prelude::*;

use crate::disk::{steps_view, StepKind, StepView, TxStep};
use crate::hooks::pre_commit::each_step;
use crate::path::{decode_path, decoded};
use crate::text::views;

verus! {

/// The decoded paths of stash file names.
pub open spec fn decoded_all(names: Seq<Seq<char>>) -> Seq<Seq<char>> {
    names.map_values(|n: Seq<char>| decoded(n))
}

/// Every stashed file written back, then the lock released.
pub open spec fn sweep_steps(paths: Seq<Seq<char>>) -> Seq<StepView> {
    each_step(StepKind::Unstash, paths).push((StepKind::ReleaseLock, Seq::empty()))
}

/// The post-commit steps, from the names of the files in the stash directory:
/// each stashed file back to the worktree, then the lock released. With no
/// stash, only the lock is released. Where an `Unstash` step fails, the caller
/// warns and leaves the lock held, so that the state stays there for a restore.
pub fn handle(stash_names: &Vec<String>) -> (r: Vec<TxStep>)
    ensures
        steps_view(r@) == sweep_steps(decoded_all(views(stash_names@))),
{
    let ghost ps = decoded_all(views(stash_names@));
    let mut r: Vec<TxStep> = Vec::new();
    let mut i: usize = 0;
    while i < stash_names.len()
        invariant
            i <= stash_names@.len(),
            ps == decoded_all(views(stash_names@)),
            steps_view(r@) == each_step(StepKind::Unstash, ps.take(i as int)),
        decreases stash_names.len() - i,
    {
        let ghost before = steps_view(r@);
        assert(ps.take(i + 1).drop_last() =~= ps.take(i as int));
        let p = decode_path(stash_names[i].as_str());
        r.push(TxStep { kind: StepKind::Unstash, path: p });
        assert(steps_view(r@) =~= before.push((StepKind::Unstash, ps[i as int])));
        i = i + 1;
    }
    assert(ps.take(i as int) =~= ps);
    let ghost before = steps_view(r@);
    r.push(TxStep { kind: StepKind::ReleaseLock, path: String::new() });
    assert(steps_view(r@) =~= before.push((StepKind::ReleaseLock, Seq::<char>::empty())));
    r
}

/// Whether the caller performs a post-commit step after `failures` of the
/// earlier steps failed: the lock is released only when every stashed file came
/// back; otherwise it stays, so that the state is left for a restore.
pub fn performs(kind: StepKind, failures: usize) -> (r: bool)
    ensures
        r == !(kind == StepKind::ReleaseLock && failures > 0),
{
    !(kind == StepKind::ReleaseLock && failures > 0)
}

} // verus!
