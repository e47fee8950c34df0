use vstd::prelude::*;

verus! {

/// The files that the commit transaction reads and writes, by managed path.
/// `baselines` and `stash` stand for the directories of those names under the
/// shadow directory, whose file names are the encoded paths.
pub struct Disk {
    pub worktree: Map<Seq<char>, Seq<u8>>,
    pub index: Map<Seq<char>, Seq<u8>>,
    pub baselines: Map<Seq<char>, Seq<u8>>,
    pub stash: Map<Seq<char>, Seq<u8>>,
    /// The `suspended` directory: shadow content parked for a branch switch.
    pub parked: Map<Seq<char>, Seq<u8>>,
    pub locked: bool,
}

/// One operation on the repository, performed by the caller in the order given.
#[derive(Debug, Clone, Copy, PartialEq, Eq, Structural)]
pub enum StepKind {
    /// Copy an overlay's worktree file into the stash, atomically.
    StashOverlay,
    /// Copy a phantom's worktree file into the stash, atomically.
    StashPhantom,
    /// Overwrite the worktree file with its baseline.
    RestoreBaseline,
    /// Stage the worktree file (`git add`).
    Stage,
    /// Take the path out of the index.
    Unstage,
    /// Write the stashed content back to the worktree, then delete the stash entry.
    Unstash,
    /// Remove the lockfile.
    ReleaseLock,
    /// Copy the worktree file into the `suspended` directory, atomically.
    Park,
    /// Delete the worktree file.
    Delete,
}

/// A step and the managed path that it acts on.
#[derive(Debug)]
pub struct TxStep {
    pub kind: StepKind,
    pub path: String,
}

pub type StepView = (StepKind, Seq<char>);

impl View for TxStep {
    type V = StepView;

    open spec fn view(&self) -> StepView {
        (self.kind, self.path@)
    }
}

pub open spec fn steps_view(v: Seq<TxStep>) -> Seq<StepView> {
    v.map_values(|s: TxStep| s@)
}

/// What a step does to the files.
pub open spec fn apply(d: Disk, s: StepView) -> Disk {
    let p = s.1;
    match s.0 {
        StepKind::StashOverlay | StepKind::StashPhantom => if d.worktree.contains_key(p) {
            Disk { stash: d.stash.insert(p, d.worktree[p]), ..d }
        } else {
            d
        },
        StepKind::RestoreBaseline => if d.baselines.contains_key(p) {
            Disk { worktree: d.worktree.insert(p, d.baselines[p]), ..d }
        } else {
            d
        },
        StepKind::Stage => if d.worktree.contains_key(p) {
            Disk { index: d.index.insert(p, d.worktree[p]), ..d }
        } else {
            Disk { index: d.index.remove(p), ..d }
        },
        StepKind::Unstage => Disk { index: d.index.remove(p), ..d },
        StepKind::Unstash => if d.stash.contains_key(p) {
            Disk { worktree: d.worktree.insert(p, d.stash[p]), stash: d.stash.remove(p), ..d }
        } else {
            d
        },
        StepKind::ReleaseLock => Disk { locked: false, ..d },
        StepKind::Park => if d.worktree.contains_key(p) {
            Disk { parked: d.parked.insert(p, d.worktree[p]), ..d }
        } else {
            d
        },
        StepKind::Delete => Disk { worktree: d.worktree.remove(p), ..d },
    }
}

/// The files after the steps, performed in order.
pub open spec fn run(d: Disk, steps: Seq<StepView>) -> Disk
    decreases steps.len(),
{
    if steps.len() == 0 {
        d
    } else {
        apply(run(d, steps.drop_last()), steps.last())
    }
}

pub fn step(kind: StepKind, path: &str) -> (r: TxStep)
    ensures
        r@ == (kind, path@),
{
    TxStep { kind, path: String::from_str(path) }
}

} // verus!
