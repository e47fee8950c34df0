use vstd::prelude::*;

use crate::disk::{steps_view, StepKind, TxStep};
use crate::hooks::pre_commit::each_step;
use crate::path::{decode_path, decoded};
use crate::text::{str_eq, views};

verus! {

/// The stashed paths that a restore writes back: all, or only `file`.
pub open spec fn chosen(names: Seq<Seq<char>>, file: Option<Seq<char>>) -> Seq<Seq<char>>
    decreases names.len(),
{
    if names.len() == 0 {
        Seq::empty()
    } else {
        let p = decoded(names.last());
        let rest = chosen(names.drop_last(), file);
        if file is None || file == Some(p) {
            rest.push(p)
        } else {
            rest
        }
    }
}

/// The recovery after an interrupted commit, from the names of the files in the
/// stash directory: each stashed file (or only `file`) written back to the
/// worktree, then the lockfile removed.
pub fn run(stash_names: &Vec<String>, file: Option<&str>) -> (r: Vec<TxStep>)
    ensures
        steps_view(r@) == each_step(
            StepKind::Unstash,
            chosen(
                views(stash_names@),
                match file {
                    Some(f) => Some(f@),
                    None => None,
                },
            ),
        ).push((StepKind::ReleaseLock, Seq::<char>::empty())),
{
    let ghost ns = views(stash_names@);
    let ghost fv = match file {
        Some(f) => Some(f@),
        None => None,
    };
    let mut r: Vec<TxStep> = Vec::new();
    let mut i: usize = 0;
    while i < stash_names.len()
        invariant
            i <= stash_names@.len(),
            ns == views(stash_names@),
            fv == match file {
                Some(f) => Some(f@),
                None => None::<Seq<char>>,
            },
            steps_view(r@) == each_step(StepKind::Unstash, chosen(ns.take(i as int), fv)),
        decreases stash_names.len() - i,
    {
        let ghost before = steps_view(r@);
        assert(ns.take(i + 1).drop_last() =~= ns.take(i as int));
        assert(ns.take(i + 1).last() == stash_names@[i as int]@);
        let p = decode_path(stash_names[i].as_str());
        let keep = match file {
            None => true,
            Some(f) => str_eq(p.as_str(), f),
        };
        let ghost c = chosen(ns.take(i as int), fv);
        if keep {
            let ghost pv = p@;
            assert(c.push(pv).drop_last() =~= c);
            assert(chosen(ns.take(i + 1), fv) == c.push(pv));
            r.push(TxStep { kind: StepKind::Unstash, path: p });
            assert(steps_view(r@) =~= before.push((StepKind::Unstash, pv)));
        } else {
            assert(chosen(ns.take(i + 1), fv) == c);
        }
        i = i + 1;
    }
    assert(ns.take(i as int) =~= ns);
    let ghost before = steps_view(r@);
    r.push(TxStep { kind: StepKind::ReleaseLock, path: String::new() });
    assert(steps_view(r@) =~= before.push((StepKind::ReleaseLock, Seq::<char>::empty())));
    r
}

} // verus!
