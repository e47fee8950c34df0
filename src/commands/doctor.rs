use vstd::prelude::*;

use crate::config::{FileType, FilesView, ShadowConfig};
use crate::text::{contains_text, occurs};

verus! {

/// What the caller found on disk for one registry entry.
#[derive(Debug, Clone, Copy)]
pub struct EntryState {
    pub exists: bool,
    pub is_dir: bool,
    pub baseline_exists: bool,
}

/// A problem with a registry entry.
#[derive(Debug, Clone, Copy, PartialEq, Eq, Structural)]
pub enum IntegrityIssue {
    /// An overlay's worktree file is gone.
    WorktreeMissing,
    /// An overlay's baseline is gone.
    BaselineMissing,
    /// A phantom directory is not a directory in the worktree.
    PhantomDirMissing,
    /// A phantom file is not in the worktree.
    PhantomMissing,
}

/// What the caller found of one hook file.
pub struct HookState {
    pub exists: bool,
    pub executable: bool,
    /// Its text, when it could be read.
    pub content: Option<String>,
}

/// A problem with a hook; only `NotCallingShadow` is a warning.
#[derive(Debug, Clone, Copy, PartialEq, Eq, Structural)]
pub enum HookIssue {
    Missing,
    NotExecutable,
    NotCallingShadow,
}

pub open spec fn entry_issues(e: (Seq<char>, crate::config::FileEntryView), s: EntryState, i: int) -> Seq<(int, IntegrityIssue)> {
    if e.1.file_type == FileType::Overlay {
        (if s.exists {
            Seq::empty()
        } else {
            seq![(i, IntegrityIssue::WorktreeMissing)]
        }) + (if s.baseline_exists {
            Seq::empty()
        } else {
            seq![(i, IntegrityIssue::BaselineMissing)]
        })
    } else if e.1.is_directory {
        if s.is_dir {
            Seq::empty()
        } else {
            seq![(i, IntegrityIssue::PhantomDirMissing)]
        }
    } else if s.exists {
        Seq::empty()
    } else {
        seq![(i, IntegrityIssue::PhantomMissing)]
    }
}

/// The issues of the entries, each with the entry's position, in registry order.
pub open spec fn integrity_issues(fs: FilesView, states: Seq<EntryState>) -> Seq<(int, IntegrityIssue)>
    decreases fs.len(),
{
    if fs.len() == 0 {
        Seq::empty()
    } else {
        let n = fs.len() - 1;
        integrity_issues(fs.drop_last(), states.take(n)) + entry_issues(fs.last(), states[n], n)
    }
}

/// The findings for one hook file: missing; or not executable, and not calling
/// this tool when its text could be read.
pub open spec fn hook_issues(h: (bool, bool, Option<Seq<char>>), i: int) -> Seq<(int, HookIssue)> {
    if !h.0 {
        seq![(i, HookIssue::Missing)]
    } else {
        (if h.1 {
            Seq::empty()
        } else {
            seq![(i, HookIssue::NotExecutable)]
        }) + match h.2 {
            Some(c) => if occurs(c, "git-shadow hook"@) || occurs(c, "git shadow hook"@) {
                Seq::empty()
            } else {
                seq![(i, HookIssue::NotCallingShadow)]
            },
            None => Seq::empty(),
        }
    }
}

pub open spec fn all_hook_issues(hs: Seq<HookState>) -> Seq<(int, HookIssue)>
    decreases hs.len(),
{
    if hs.len() == 0 {
        Seq::empty()
    } else {
        all_hook_issues(hs.drop_last()) + hook_issues(hook_view(hs.last()), hs.len() - 1)
    }
}

pub open spec fn hook_view(h: HookState) -> (bool, bool, Option<Seq<char>>) {
    (
        h.exists,
        h.executable,
        match h.content {
            Some(c) => Some(c@),
            None => None,
        },
    )
}

/// Problems of the registry's entries against what is on disk.
pub fn check_config_integrity(config: &ShadowConfig, states: &Vec<EntryState>) -> (r: Vec<
    (usize, IntegrityIssue),
>)
    requires
        states@.len() == config.files@.len(),
    ensures
        r@.map_values(|p: (usize, IntegrityIssue)| (p.0 as int, p.1)) == integrity_issues(
            config.files_v(),
            states@,
        ),
{
    let ghost fs = config.files_v();
    let ghost st = states@;
    let mut r: Vec<(usize, IntegrityIssue)> = Vec::new();
    let mut i: usize = 0;
    while i < config.files.len()
        invariant
            i <= config.files@.len(),
            fs == config.files_v(),
            st == states@,
            st.len() == fs.len(),
            r@.map_values(|p: (usize, IntegrityIssue)| (p.0 as int, p.1)) == integrity_issues(
                fs.take(i as int),
                st.take(i as int),
            ),
        decreases config.files.len() - i,
    {
        let (_, entry) = &config.files[i];
        let s = states[i];
        let ghost before = r@.map_values(|p: (usize, IntegrityIssue)| (p.0 as int, p.1));
        assert(fs.take(i + 1).drop_last() =~= fs.take(i as int));
        assert(st.take(i + 1).take(i as int) =~= st.take(i as int));
        assert(fs.take(i + 1).last() == fs[i as int]);
        assert(fs[i as int].1 == entry@);
        assert(st.take(i + 1)[i as int] == s);
        if entry.file_type == FileType::Overlay {
            if !s.exists {
                r.push((i, IntegrityIssue::WorktreeMissing));
            }
            if !s.baseline_exists {
                r.push((i, IntegrityIssue::BaselineMissing));
            }
        } else if entry.is_directory {
            if !s.is_dir {
                r.push((i, IntegrityIssue::PhantomDirMissing));
            }
        } else if !s.exists {
            r.push((i, IntegrityIssue::PhantomMissing));
        }
        assert(r@.map_values(|p: (usize, IntegrityIssue)| (p.0 as int, p.1)) =~= before
            + entry_issues(fs[i as int], s, i as int));
        i = i + 1;
    }
    assert(fs.take(i as int) =~= fs);
    assert(st.take(i as int) =~= st);
    r
}

/// The findings of the hook files, each with the hook's position, in order.
pub fn check_hooks(hooks: &Vec<HookState>) -> (r: Vec<(usize, HookIssue)>)
    ensures
        r@.map_values(|p: (usize, HookIssue)| (p.0 as int, p.1)) == all_hook_issues(hooks@),
{
    let mut r: Vec<(usize, HookIssue)> = Vec::new();
    let mut i: usize = 0;
    while i < hooks.len()
        invariant
            i <= hooks@.len(),
            r@.map_values(|p: (usize, HookIssue)| (p.0 as int, p.1)) == all_hook_issues(
                hooks@.take(i as int),
            ),
        decreases hooks.len() - i,
    {
        let h = &hooks[i];
        let ghost before = r@.map_values(|p: (usize, HookIssue)| (p.0 as int, p.1));
        assert(hooks@.take(i + 1).drop_last() =~= hooks@.take(i as int));
        assert(hooks@.take(i + 1).last() == hooks@[i as int]);
        if !h.exists {
            r.push((i, HookIssue::Missing));
        } else {
            if !h.executable {
                r.push((i, HookIssue::NotExecutable));
            }
            match &h.content {
                Some(c) => {
                    if !contains_text(c.as_str(), "git-shadow hook") && !contains_text(
                        c.as_str(),
                        "git shadow hook",
                    ) {
                        r.push((i, HookIssue::NotCallingShadow));
                    }
                },
                None => {},
            }
        }
        assert(r@.map_values(|p: (usize, HookIssue)| (p.0 as int, p.1)) =~= before + hook_issues(
            hook_view(hooks@[i as int]),
            i as int,
        ));
        i = i + 1;
    }
    assert(hooks@.take(i as int) =~= hooks@);
    r
}

} // verus!
