//! What the commit transaction guarantees, proved over the step model of `disk`.

use vstd::prelude::*;

use crate::config::{unique_keys, FileType, FilesView};
use crate::disk::{apply, run, Disk, StepKind, StepView};
use crate::hooks::post_commit::sweep_steps;
use crate::hooks::pre_commit::{
    each_step, entry_steps, fails_hard, first_partial, partial_stage_blocks, partly_staged,
    rollback_steps, transform_steps, EntryProbe,
};

verus! {

/// The probes say truly which worktree files and baselines exist.
pub open spec fn probe_matches(fs: FilesView, probe: Seq<EntryProbe>, d: Disk) -> bool {
    &&& probe.len() == fs.len()
    &&& forall|i: int|
        0 <= i < fs.len() ==> (#[trigger] probe[i]).worktree_exists == d.worktree.contains_key(
            fs[i].0,
        ) && probe[i].baseline_exists == d.baselines.contains_key(fs[i].0)
}

/// The state in which pre-commit starts its transform: a registry without
/// duplicates, true probes, an empty stash, and every hard check passed.
pub open spec fn ready(fs: FilesView, probe: Seq<EntryProbe>, d0: Disk) -> bool {
    &&& unique_keys(fs)
    &&& probe_matches(fs, probe, d0)
    &&& d0.stash == Map::<Seq<char>, Seq<u8>>::empty()
    &&& forall|i: int| 0 <= i < fs.len() ==> !fails_hard(#[trigger] fs[i], probe[i])
}

/// Every stashed file holds what the worktree held at the start, and every
/// worktree file that is not stashed is as it was then.
pub open spec fn recoverable(d0: Disk, d: Disk) -> bool {
    &&& forall|q: Seq<char>| #[trigger]
        d.stash.contains_key(q) ==> d0.worktree.contains_key(q) && d.stash[q] == d0.worktree[q]
    &&& forall|q: Seq<char>| #[trigger]
        d.stash.contains_key(q) || (d.worktree.contains_key(q) == d0.worktree.contains_key(q) && (
        d0.worktree.contains_key(q) ==> d.worktree[q] == d0.worktree[q]))
    &&& d.baselines == d0.baselines
    &&& d.stash.dom().finite()
}

pub open spec fn is_path_of(fs: FilesView, q: Seq<char>) -> bool {
    exists|i: int| 0 <= i < fs.len() && (#[trigger] fs[i]).0 == q
}

pub proof fn lemma_run_concat(d: Disk, a: Seq<StepView>, b: Seq<StepView>)
    ensures
        run(d, a + b) == run(run(d, a), b),
    decreases b.len(),
{
    if b.len() == 0 {
        assert(a + b =~= a);
    } else {
        assert((a + b).drop_last() =~= a + b.drop_last());
        assert((a + b).last() == b.last());
        lemma_run_concat(d, a, b.drop_last());
    }
}

proof fn lemma_run_one(d: Disk, s: StepView)
    ensures
        run(d, seq![s]) == apply(d, s),
{
    assert(seq![s].drop_last() =~= Seq::<StepView>::empty());
    assert(run(d, Seq::<StepView>::empty()) == d);
    assert(seq![s].last() == s);
}

proof fn lemma_run_two(d: Disk, s: StepView, t: StepView)
    ensures
        run(d, seq![s, t]) == apply(apply(d, s), t),
{
    assert(seq![s, t].drop_last() =~= seq![s]);
    lemma_run_one(d, s);
}

proof fn lemma_run_three(d: Disk, s: StepView, t: StepView, u: StepView)
    ensures
        run(d, seq![s, t, u]) == apply(apply(apply(d, s), t), u),
{
    assert(seq![s, t, u].drop_last() =~= seq![s, t]);
    lemma_run_two(d, s, t);
}

proof fn lemma_ready_prefix(fs: FilesView, probe: Seq<EntryProbe>, d0: Disk)
    requires
        ready(fs, probe, d0),
        fs.len() > 0,
    ensures
        ready(fs.drop_last(), probe.take(fs.len() - 1), d0),
{
    let f = fs.drop_last();
    let p = probe.take(fs.len() - 1);
    assert forall|i: int, j: int| 0 <= i < j < f.len() implies (#[trigger] f[i]).0 != (
    #[trigger] f[j]).0 by {
        assert(f[i] == fs[i] && f[j] == fs[j]);
    }
    assert forall|i: int| 0 <= i < f.len() implies (#[trigger] p[i]).worktree_exists
        == d0.worktree.contains_key(f[i].0) && p[i].baseline_exists == d0.baselines.contains_key(
        f[i].0,
    ) by {
        assert(f[i] == fs[i] && p[i] == probe[i]);
    }
    assert forall|i: int| 0 <= i < f.len() implies !fails_hard(#[trigger] f[i], p[i]) by {
        assert(f[i] == fs[i] && p[i] == probe[i]);
    }
}

/// The steps of one entry keep the state recoverable, and stash only its path.
proof fn lemma_block(d0: Disk, d: Disk, e: (Seq<char>, crate::config::FileEntryView), p: EntryProbe, m: int)
    requires
        recoverable(d0, d),
        !d.stash.contains_key(e.0),
        p.worktree_exists == d0.worktree.contains_key(e.0),
        p.baseline_exists == d0.baselines.contains_key(e.0),
        !fails_hard(e, p),
        0 <= m <= entry_steps(e, p).len(),
    ensures
        recoverable(d0, run(d, entry_steps(e, p).take(m))),
        forall|q: Seq<char>| #[trigger]
            run(d, entry_steps(e, p).take(m)).stash.contains_key(q) ==> d.stash.contains_key(q)
                || q == e.0,
{
    let b = entry_steps(e, p);
    let q = e.0;
    let t = b.take(m);
    if m == 0 {
        assert(t =~= Seq::<StepView>::empty());
    } else if m == 1 {
        assert(t =~= seq![b[0]]);
        lemma_run_one(d, b[0]);
    } else if m == 2 {
        assert(t =~= seq![b[0], b[1]]);
        lemma_run_two(d, b[0], b[1]);
    } else {
        assert(t =~= seq![b[0], b[1], b[2]]);
        lemma_run_three(d, b[0], b[1], b[2]);
    }
    let r = run(d, t);
    assert(recoverable(d0, r)) by {
        assert(r.stash.dom() =~= d.stash.dom() || r.stash.dom() =~= d.stash.dom().insert(q));
        assert forall|x: Seq<char>| #[trigger]
            r.stash.contains_key(x) implies d0.worktree.contains_key(x) && r.stash[x]
            == d0.worktree[x] by {
            if x != q {
                assert(d.stash.contains_key(x));
            }
        }
        assert forall|x: Seq<char>| #[trigger]
            r.stash.contains_key(x) || (r.worktree.contains_key(x) == d0.worktree.contains_key(x)
                && (d0.worktree.contains_key(x) ==> r.worktree[x] == d0.worktree[x])) by {
            if x != q {
                assert(d.stash.contains_key(x) || (d.worktree.contains_key(x)
                    == d0.worktree.contains_key(x) && (d0.worktree.contains_key(x)
                    ==> d.worktree[x] == d0.worktree[x])));
            } else {
                assert(d.stash.contains_key(q) || (d.worktree.contains_key(q)
                    == d0.worktree.contains_key(q) && (d0.worktree.contains_key(q)
                    ==> d.worktree[q] == d0.worktree[q])));
            }
        }
    }
}

/// After any prefix of the transform, the state is recoverable and the stash
/// holds registered paths only.
proof fn lemma_transform_prefix(fs: FilesView, probe: Seq<EntryProbe>, d0: Disk, k: int)
    requires
        ready(fs, probe, d0),
        0 <= k <= transform_steps(fs, probe).len(),
    ensures
        recoverable(d0, run(d0, transform_steps(fs, probe).take(k))),
        forall|q: Seq<char>| #[trigger]
            run(d0, transform_steps(fs, probe).take(k)).stash.contains_key(q) ==> is_path_of(
                fs,
                q,
            ),
    decreases fs.len(),
{
    let t = transform_steps(fs, probe);
    if fs.len() == 0 {
        assert(t.take(k) =~= Seq::<StepView>::empty());
        assert(d0.stash.dom() =~= Set::<Seq<char>>::empty());
    } else {
        let n = fs.len() - 1;
        let f = fs.drop_last();
        let p = probe.take(n);
        let t1 = transform_steps(f, p);
        let b = entry_steps(fs.last(), probe[n]);
        assert(t == t1 + b);
        lemma_ready_prefix(fs, probe, d0);
        if k <= t1.len() {
            assert(t.take(k) =~= t1.take(k));
            lemma_transform_prefix(f, p, d0, k);
            assert forall|q: Seq<char>| #[trigger]
                run(d0, t.take(k)).stash.contains_key(q) implies is_path_of(fs, q) by {
                assert(is_path_of(f, q));
                let i = choose|i: int| 0 <= i < f.len() && (#[trigger] f[i]).0 == q;
                assert(fs[i] == f[i]);
            }
        } else {
            let m = k - t1.len();
            assert(t.take(k) =~= t1 + b.take(m));
            assert(t1.take(t1.len() as int) =~= t1);
            lemma_transform_prefix(f, p, d0, t1.len() as int);
            lemma_run_concat(d0, t1, b.take(m));
            let d1 = run(d0, t1);
            let q = fs.last().0;
            assert(fs[n] == fs.last());
            assert(!d1.stash.contains_key(q)) by {
                if d1.stash.contains_key(q) {
                    assert(is_path_of(f, q));
                    let i = choose|i: int| 0 <= i < f.len() && (#[trigger] f[i]).0 == q;
                    assert(fs[i] == f[i]);
                }
            }
            assert(probe[n].worktree_exists == d0.worktree.contains_key(fs[n].0));
            assert(!fails_hard(fs[n], probe[n]));
            lemma_block(d0, d1, fs.last(), probe[n], m);
            assert forall|x: Seq<char>| #[trigger]
                run(d0, t.take(k)).stash.contains_key(x) implies is_path_of(fs, x) by {
                if x != q {
                    assert(d1.stash.contains_key(x));
                    assert(is_path_of(f, x));
                    let i = choose|i: int| 0 <= i < f.len() && (#[trigger] f[i]).0 == x;
                    assert(fs[i] == f[i]);
                } else {
                    assert(fs[n].0 == x);
                }
            }
        }
    }
}

/// Writing back every stashed path in `paths`, one after the other.
proof fn lemma_unstash_all(d: Disk, paths: Seq<Seq<char>>)
    requires
        paths.no_duplicates(),
        forall|i: int| 0 <= i < paths.len() ==> d.stash.contains_key(#[trigger] paths[i]),
    ensures
        run(d, each_step(StepKind::Unstash, paths)).worktree == d.worktree.union_prefer_right(
            d.stash.restrict(paths.to_set()),
        ),
        run(d, each_step(StepKind::Unstash, paths)).stash == d.stash.remove_keys(paths.to_set()),
        run(d, each_step(StepKind::Unstash, paths)).index == d.index,
        run(d, each_step(StepKind::Unstash, paths)).baselines == d.baselines,
        run(d, each_step(StepKind::Unstash, paths)).locked == d.locked,
    decreases paths.len(),
{
    if paths.len() == 0 {
        assert(paths.to_set() =~= Set::<Seq<char>>::empty());
        assert(d.worktree.union_prefer_right(d.stash.restrict(paths.to_set())) =~= d.worktree);
        assert(d.stash.remove_keys(paths.to_set()) =~= d.stash);
    } else {
        let rest = paths.drop_last();
        let q = paths.last();
        assert(rest.no_duplicates()) by {
            assert forall|i: int, j: int| 0 <= i < rest.len() && 0 <= j < rest.len() && i != j
                implies rest[i] != rest[j] by {
                assert(rest[i] == paths[i] && rest[j] == paths[j]);
            }
        }
        assert forall|i: int| 0 <= i < rest.len() implies d.stash.contains_key(
            #[trigger] rest[i],
        ) by {
            assert(rest[i] == paths[i]);
        }
        lemma_unstash_all(d, rest);
        let e = each_step(StepKind::Unstash, paths);
        assert(e.drop_last() == each_step(StepKind::Unstash, rest));
        let d1 = run(d, each_step(StepKind::Unstash, rest));
        assert(paths[paths.len() - 1] == q);
        assert(!rest.contains(q)) by {
            if rest.contains(q) {
                let i = choose|i: int| 0 <= i < rest.len() && rest[i] == q;
                assert(paths[i] == q);
            }
        }
        assert(paths.to_set() =~= rest.to_set().insert(q)) by {
            assert forall|x: Seq<char>| paths.to_set().contains(x) <==> rest.to_set().insert(
                q,
            ).contains(x) by {
                if paths.contains(x) {
                    let i = choose|i: int| 0 <= i < paths.len() && paths[i] == x;
                    if i < rest.len() {
                        assert(rest[i] == x);
                    }
                }
                if rest.contains(x) {
                    let i = choose|i: int| 0 <= i < rest.len() && rest[i] == x;
                    assert(paths[i] == x);
                }
            }
        }
        assert(d1.stash.contains_key(q));
        assert(d1.worktree.insert(q, d1.stash[q]) =~= d.worktree.union_prefer_right(
            d.stash.restrict(paths.to_set()),
        ));
        assert(d1.stash.remove(q) =~= d.stash.remove_keys(paths.to_set()));
    }
}

/// Restoring a recoverable state: with `paths` naming every stashed file once,
/// writing them back and releasing the lock gives the starting worktree, an
/// empty stash and no lock.
proof fn lemma_sweep_restores(d0: Disk, d: Disk, paths: Seq<Seq<char>>)
    requires
        recoverable(d0, d),
        paths.no_duplicates(),
        paths.to_set() == d.stash.dom(),
    ensures
        run(d, sweep_steps(paths)).worktree == d0.worktree,
        run(d, sweep_steps(paths)).stash == Map::<Seq<char>, Seq<u8>>::empty(),
        !run(d, sweep_steps(paths)).locked,
        run(d, sweep_steps(paths)).index == d.index,
{
    assert forall|i: int| 0 <= i < paths.len() implies d.stash.contains_key(#[trigger] paths[i]) by {
        assert(paths.to_set().contains(paths[i]));
    }
    lemma_unstash_all(d, paths);
    let s = sweep_steps(paths);
    assert(s.drop_last() == each_step(StepKind::Unstash, paths));
    let r = run(d, each_step(StepKind::Unstash, paths));
    assert(d.stash.restrict(paths.to_set()) =~= d.stash);
    assert forall|q: Seq<char>| #[trigger] d.worktree.union_prefer_right(d.stash).contains_key(q)
        == d0.worktree.contains_key(q) by {
        assert(d.stash.contains_key(q) || (d.worktree.contains_key(q) == d0.worktree.contains_key(
            q,
        ) && (d0.worktree.contains_key(q) ==> d.worktree[q] == d0.worktree[q])));
    }
    assert(d.worktree.union_prefer_right(d.stash) =~= d0.worktree) by {
        assert forall|q: Seq<char>| #[trigger]
            d.worktree.union_prefer_right(d.stash).contains_key(q) implies d.worktree.union_prefer_right(
            d.stash,
        )[q] == d0.worktree[q] by {
            assert(d.stash.contains_key(q) || (d.worktree.contains_key(q)
                == d0.worktree.contains_key(q) && (d0.worktree.contains_key(q) ==> d.worktree[q]
                == d0.worktree[q])));
        }
    }
    assert(d.stash.remove_keys(paths.to_set()) =~= Map::<Seq<char>, Seq<u8>>::empty());
}

/// Crash safety: whatever prefix of the pre-commit transform has run when the
/// process dies, a restore that writes back every stashed file and removes the
/// lock gives back the worktree as it was before pre-commit, with an empty stash.
pub proof fn lemma_crash_then_restore(
    fs: FilesView,
    probe: Seq<EntryProbe>,
    d0: Disk,
    k: int,
    paths: Seq<Seq<char>>,
)
    requires
        ready(fs, probe, d0),
        0 <= k <= transform_steps(fs, probe).len(),
        paths.no_duplicates(),
        paths.to_set() == run(d0, transform_steps(fs, probe).take(k)).stash.dom(),
    ensures
        ({
            let d = run(run(d0, transform_steps(fs, probe).take(k)), sweep_steps(paths));
            &&& d.worktree == d0.worktree
            &&& d.stash == Map::<Seq<char>, Seq<u8>>::empty()
            &&& !d.locked
        }),
{
    lemma_transform_prefix(fs, probe, d0, k);
    lemma_sweep_restores(d0, run(d0, transform_steps(fs, probe).take(k)), paths);
}

/// Rollback: when a step of the transform fails after a prefix has run, the
/// rollback built from the journal (the stashed paths, then the overwritten
/// ones) gives back the worktree as it was, and empties the stash.
pub proof fn lemma_rollback_restores(
    fs: FilesView,
    probe: Seq<EntryProbe>,
    d0: Disk,
    k: int,
    stashed: Seq<Seq<char>>,
    overwritten: Seq<Seq<char>>,
)
    requires
        ready(fs, probe, d0),
        0 <= k <= transform_steps(fs, probe).len(),
        stashed.no_duplicates(),
        stashed.to_set() == run(d0, transform_steps(fs, probe).take(k)).stash.dom(),
    ensures
        ({
            let d = run(
                run(d0, transform_steps(fs, probe).take(k)),
                rollback_steps(stashed, overwritten),
            );
            &&& d.worktree == d0.worktree
            &&& d.stash == Map::<Seq<char>, Seq<u8>>::empty()
        }),
{
    let dk = run(d0, transform_steps(fs, probe).take(k));
    lemma_transform_prefix(fs, probe, d0, k);
    lemma_sweep_restores(d0, dk, stashed);
    lemma_unstash_all(dk, stashed);
    let u = each_step(StepKind::Unstash, stashed);
    lemma_run_concat(dk, u, each_step(StepKind::Stage, overwritten));
    let du = run(dk, u);
    assert(du.worktree == dk.worktree.union_prefer_right(dk.stash.restrict(stashed.to_set())));
    assert(dk.stash.restrict(stashed.to_set()) =~= dk.stash);
    assert(sweep_steps(stashed).drop_last() =~= u);
    assert(sweep_steps(stashed).last() == (StepKind::ReleaseLock, Seq::<char>::empty()));
    assert(run(dk, sweep_steps(stashed)).worktree == du.worktree);
    assert(du.stash =~= Map::<Seq<char>, Seq<u8>>::empty()) by {
        assert(run(dk, sweep_steps(stashed)).stash == du.stash);
    }
    lemma_stage_keeps_files(du, overwritten);
}

/// What the index holds for an entry once the transform has run: an overlay's
/// baseline, and nothing for a phantom.
pub open spec fn committed_as_baseline(e: (Seq<char>, crate::config::FileEntryView), d: Disk, d0: Disk) -> bool {
    if e.1.file_type == FileType::Overlay {
        d.index.contains_key(e.0) && d.index[e.0] == d0.baselines[e.0]
    } else {
        !d.index.contains_key(e.0)
    }
}

proof fn lemma_block_index(d0: Disk, d: Disk, e: (Seq<char>, crate::config::FileEntryView), p: EntryProbe)
    requires
        d.baselines == d0.baselines,
        p.baseline_exists == d0.baselines.contains_key(e.0),
        !fails_hard(e, p),
    ensures
        committed_as_baseline(e, run(d, entry_steps(e, p)), d0),
        forall|x: Seq<char>|
            x != e.0 ==> (#[trigger] run(d, entry_steps(e, p)).index.contains_key(x)
                == d.index.contains_key(x) && (d.index.contains_key(x) ==> run(
                d,
                entry_steps(e, p),
            ).index[x] == d.index[x])),
{
    let b = entry_steps(e, p);
    if b.len() == 1 {
        assert(b =~= seq![b[0]]);
        lemma_run_one(d, b[0]);
    } else if b.len() == 2 {
        assert(b =~= seq![b[0], b[1]]);
        lemma_run_two(d, b[0], b[1]);
    } else {
        assert(b =~= seq![b[0], b[1], b[2]]);
        lemma_run_three(d, b[0], b[1], b[2]);
    }
}

proof fn lemma_transform_index(fs: FilesView, probe: Seq<EntryProbe>, d0: Disk)
    requires
        ready(fs, probe, d0),
    ensures
        forall|i: int|
            0 <= i < fs.len() ==> committed_as_baseline(
                #[trigger] fs[i],
                run(d0, transform_steps(fs, probe)),
                d0,
            ),
    decreases fs.len(),
{
    if fs.len() > 0 {
        let n = fs.len() - 1;
        let f = fs.drop_last();
        let p = probe.take(n);
        let t1 = transform_steps(f, p);
        let b = entry_steps(fs.last(), probe[n]);
        lemma_ready_prefix(fs, probe, d0);
        lemma_transform_index(f, p, d0);
        assert(t1.take(t1.len() as int) =~= t1);
        lemma_transform_prefix(f, p, d0, t1.len() as int);
        lemma_run_concat(d0, t1, b);
        let d1 = run(d0, t1);
        assert(fs[n] == fs.last());
        assert(!fails_hard(fs[n], probe[n]));
        assert(probe[n].baseline_exists == d0.baselines.contains_key(fs[n].0));
        lemma_block_index(d0, d1, fs.last(), probe[n]);
        assert forall|i: int| 0 <= i < fs.len() implies committed_as_baseline(
            #[trigger] fs[i],
            run(d0, transform_steps(fs, probe)),
            d0,
        ) by {
            if i < n {
                assert(fs[i] == f[i]);
                assert(committed_as_baseline(f[i], d1, d0));
                assert(fs[i].0 != fs[n].0);
            }
        }
    }
}

/// The commit cycle: with the registry ready, pre-commit's transform leaves each
/// overlay's baseline in the index (so the commit records the baseline) and no
/// phantom in it; post-commit, writing back every stashed path and releasing the
/// lock, then gives back the worktree as it was, with an empty stash and no lock.
pub proof fn lemma_commit_cycle(fs: FilesView, probe: Seq<EntryProbe>, d0: Disk, paths: Seq<Seq<char>>)
    requires
        ready(fs, probe, d0),
        paths.no_duplicates(),
        paths.to_set() == run(d0, transform_steps(fs, probe)).stash.dom(),
    ensures
        forall|i: int|
            0 <= i < fs.len() ==> committed_as_baseline(
                #[trigger] fs[i],
                run(d0, transform_steps(fs, probe)),
                d0,
            ),
        ({
            let d = run(run(d0, transform_steps(fs, probe)), sweep_steps(paths));
            &&& d.worktree == d0.worktree
            &&& d.stash == Map::<Seq<char>, Seq<u8>>::empty()
            &&& !d.locked
        }),
{
    let t = transform_steps(fs, probe);
    lemma_transform_index(fs, probe, d0);
    assert(t.take(t.len() as int) =~= t);
    lemma_crash_then_restore(fs, probe, d0, t.len() as int, paths);
}

proof fn lemma_stage_keeps_files(d: Disk, paths: Seq<Seq<char>>)
    ensures
        run(d, each_step(StepKind::Stage, paths)).worktree == d.worktree,
        run(d, each_step(StepKind::Stage, paths)).stash == d.stash,
    decreases paths.len(),
{
    if paths.len() > 0 {
        let e = each_step(StepKind::Stage, paths);
        assert(e.drop_last() =~= each_step(StepKind::Stage, paths.drop_last()));
        assert(e.last() == (StepKind::Stage, paths.last()));
        lemma_stage_keeps_files(d, paths.drop_last());
    }
}

/// What the caller performs when pre-commit fails: only the lock's release.
pub open spec fn refusal_steps() -> Seq<StepView> {
    seq![(StepKind::ReleaseLock, Seq::<char>::empty())]
}

/// Partial-stage refusal changes nothing: when an overlay is partly staged
/// (and the stash is empty and the files are there), `handle` fails with
/// `PartialStage` and hands out no step, so the only thing done is releasing
/// the lock; worktree, index, stash, baselines and parked files stay as they were.
pub proof fn lemma_partial_stage_no_mutation(fs: FilesView, probe: Seq<EntryProbe>, d0: Disk)
    requires
        partial_stage_blocks(fs, probe, false),
    ensures
        first_partial(fs, probe, 0) < fs.len(),
        ({
            let d = run(d0, refusal_steps());
            &&& d.worktree == d0.worktree
            &&& d.index == d0.index
            &&& d.stash == d0.stash
            &&& d.baselines == d0.baselines
            &&& d.parked == d0.parked
            &&& !d.locked
        }),
{
    let i = choose|i: int| 0 <= i < fs.len() && partly_staged(#[trigger] fs[i], probe[i]);
    lemma_first_partial_bound(fs, probe, 0, i);
    lemma_run_one(d0, (StepKind::ReleaseLock, Seq::<char>::empty()));
}

proof fn lemma_first_partial_bound(fs: FilesView, probe: Seq<EntryProbe>, j: int, i: int)
    requires
        0 <= j <= i < fs.len(),
        partly_staged(fs[i], probe[i]),
    ensures
        first_partial(fs, probe, j) <= i,
    decreases i - j,
{
    if !partly_staged(fs[j], probe[j]) {
        lemma_first_partial_bound(fs, probe, j + 1, i);
    }
}

} // verus!
