use vstd::prelude::*;

use crate::error::ShadowError;
use crate::lock::now_rfc3339;
use crate::text::str_eq;

verus! {

#[derive(Debug, Clone, Copy, PartialEq, Eq, Structural)]
pub enum FileType {
    Overlay,
    Phantom,
}

#[derive(Debug, Clone, Copy, PartialEq, Eq, Structural)]
pub enum ExcludeMode {
    GitInfoExclude,
    NoExclude,
}

/// How one managed path is handled.
#[derive(Debug)]
pub struct FileEntry {
    pub file_type: FileType,
    /// The commit whose content is cached as the baseline (overlays only).
    pub baseline_commit: Option<String>,
    pub exclude_mode: ExcludeMode,
    /// A phantom that names a directory.
    pub is_directory: bool,
    /// The RFC 3339 time of registration.
    pub added_at: String,
}

pub struct FileEntryView {
    pub file_type: FileType,
    pub baseline_commit: Option<Seq<char>>,
    pub exclude_mode: ExcludeMode,
    pub is_directory: bool,
    pub added_at: Seq<char>,
}

impl View for FileEntry {
    type V = FileEntryView;

    open spec fn view(&self) -> FileEntryView {
        FileEntryView {
            file_type: self.file_type,
            baseline_commit: match self.baseline_commit {
                Some(c) => Some(c@),
                None => None,
            },
            exclude_mode: self.exclude_mode,
            is_directory: self.is_directory,
            added_at: self.added_at@,
        }
    }
}

/// The registry: managed paths with their entries, in order of registration.
#[derive(Debug)]
pub struct ShadowConfig {
    pub version: u32,
    /// Set while the shadow state is parked for a branch switch.
    pub suspended: bool,
    pub files: Vec<(String, FileEntry)>,
}

pub type FilesView = Seq<(Seq<char>, FileEntryView)>;

pub open spec fn files_view(fs: Seq<(String, FileEntry)>) -> FilesView {
    fs.map_values(|p: (String, FileEntry)| (p.0@, p.1@))
}

/// No path is registered twice.
pub open spec fn unique_keys(fs: FilesView) -> bool {
    forall|i: int, j: int| 0 <= i < j < fs.len() ==> (#[trigger] fs[i]).0 != (#[trigger] fs[j]).0
}

pub open spec fn has_key(fs: FilesView, k: Seq<char>) -> bool {
    exists|i: int| 0 <= i < fs.len() && (#[trigger] fs[i]).0 == k
}

/// The entry registered under `k`.
pub open spec fn lookup(fs: FilesView, k: Seq<char>) -> Option<FileEntryView>
    decreases fs.len(),
{
    if fs.len() == 0 {
        None
    } else if fs.last().0 == k {
        Some(fs.last().1)
    } else {
        lookup(fs.drop_last(), k)
    }
}

/// The registry's files with `k` unregistered.
pub open spec fn without_key(fs: FilesView, k: Seq<char>) -> FilesView
    decreases fs.len(),
{
    if fs.len() == 0 {
        fs
    } else if fs.last().0 == k {
        without_key(fs.drop_last(), k)
    } else {
        without_key(fs.drop_last(), k).push(fs.last())
    }
}

pub proof fn lemma_without_absent_key(fs: FilesView, k: Seq<char>)
    requires
        !has_key(fs, k),
    ensures
        without_key(fs, k) == fs,
    decreases fs.len(),
{
    if fs.len() > 0 {
        let d = fs.drop_last();
        assert(!has_key(d, k)) by {
            if has_key(d, k) {
                let i = choose|i: int| 0 <= i < d.len() && (#[trigger] d[i]).0 == k;
                assert(fs[i] == d[i]);
            }
        }
        assert(fs[fs.len() - 1] == fs.last());
        lemma_without_absent_key(d, k);
        assert(d.push(fs.last()) =~= fs);
    }
}

proof fn lemma_without_at(fs: FilesView, k: Seq<char>, i: int)
    requires
        unique_keys(fs),
        0 <= i < fs.len(),
        fs[i].0 == k,
    ensures
        without_key(fs, k) == fs.remove(i),
    decreases fs.len(),
{
    let d = fs.drop_last();
    assert(unique_keys(d)) by {
        assert forall|a: int, b: int| 0 <= a < b < d.len() implies (#[trigger] d[a]).0 != (
        #[trigger] d[b]).0 by {
            assert(d[a] == fs[a] && d[b] == fs[b]);
        }
    }
    if i == fs.len() - 1 {
        assert(!has_key(d, k)) by {
            if has_key(d, k) {
                let j = choose|j: int| 0 <= j < d.len() && (#[trigger] d[j]).0 == k;
                assert(fs[j] == d[j]);
            }
        }
        lemma_without_absent_key(d, k);
        assert(fs.remove(i) =~= d);
    } else {
        assert(fs.last() == fs[fs.len() - 1]);
        assert(fs.last().0 != k);
        assert(d[i] == fs[i]);
        lemma_without_at(d, k, i);
        assert(d.remove(i).push(fs.last()) =~= fs.remove(i));
    }
}

/// Registering a path and unregistering it leaves the registry's files as they were.
pub proof fn lemma_add_then_remove(fs: FilesView, k: Seq<char>, e: FileEntryView)
    requires
        !has_key(fs, k),
    ensures
        without_key(fs.push((k, e)), k) == fs,
{
    assert(fs.push((k, e)).drop_last() =~= fs);
    lemma_without_absent_key(fs, k);
}

impl ShadowConfig {
    pub open spec fn files_v(&self) -> FilesView {
        files_view(self.files@)
    }

    pub open spec fn wf(&self) -> bool {
        unique_keys(self.files_v())
    }

    pub fn new() -> (r: Self)
        ensures
            r.version == 1,
            !r.suspended,
            r.files@.len() == 0,
            r.wf(),
    {
        ShadowConfig { version: 1, suspended: false, files: Vec::new() }
    }

    /// The position of `path` among the files.
    fn position(&self, path: &str) -> (r: Option<usize>)
        ensures
            r matches Some(i) ==> i < self.files@.len() && self.files_v()[i as int].0 == path@,
            r is None ==> !has_key(self.files_v(), path@),
    {
        let mut i: usize = 0;
        while i < self.files.len()
            invariant
                i <= self.files@.len(),
                forall|j: int| 0 <= j < i ==> (#[trigger] self.files_v()[j]).0 != path@,
            decreases self.files.len() - i,
        {
            if str_eq(self.files[i].0.as_str(), path) {
                return Some(i);
            }
            i = i + 1;
        }
        None
    }

    fn insert_new(&mut self, path: String, entry: FileEntry) -> (r: Result<(), ShadowError>)
        requires
            old(self).wf(),
        ensures
            final(self).wf(),
            final(self).version == old(self).version,
            final(self).suspended == old(self).suspended,
            has_key(old(self).files_v(), path@) ==> r == Err::<(), ShadowError>(
                ShadowError::AlreadyManaged(path)) && final(self).files_v() == old(self).files_v(),
            !has_key(old(self).files_v(), path@) ==> r is Ok && final(self).files_v() == old(
                self,
            ).files_v().push((path@, entry@)),
    {
        if self.position(path.as_str()).is_some() {
            return Err(ShadowError::AlreadyManaged(path));
        }
        let ghost before = self.files_v();
        let ghost k = path@;
        let ghost e = entry@;
        self.files.push((path, entry));
        assert(self.files_v() =~= before.push((k, e)));
        assert(unique_keys(self.files_v())) by {
            assert forall|a: int, b: int| 0 <= a < b < self.files_v().len() implies (
            #[trigger] self.files_v()[a]).0 != (#[trigger] self.files_v()[b]).0 by {
                if b == before.len() {
                    assert(self.files_v()[a] == before[a]);
                } else {
                    assert(self.files_v()[a] == before[a] && self.files_v()[b] == before[b]);
                }
            }
        }
        Ok(())
    }

    /// Register `path` as an overlay whose baseline is the content at `commit`.
    pub fn add_overlay(&mut self, path: String, commit: String) -> (r: Result<(), ShadowError>)
        requires
            old(self).wf(),
        ensures
            final(self).wf(),
            final(self).version == old(self).version,
            final(self).suspended == old(self).suspended,
            has_key(old(self).files_v(), path@) ==> r == Err::<(), ShadowError>(
                ShadowError::AlreadyManaged(path)) && final(self).files_v() == old(self).files_v(),
            !has_key(old(self).files_v(), path@) ==> r is Ok && final(self).files_v() == old(
                self,
            ).files_v().push(
                (
                    path@,
                    FileEntryView {
                        file_type: FileType::Overlay,
                        baseline_commit: Some(commit@),
                        exclude_mode: ExcludeMode::NoExclude,
                        is_directory: false,
                        added_at: final(self).files_v().last().1.added_at,
                    },
                ),
            ),
    {
        let entry = FileEntry {
            file_type: FileType::Overlay,
            baseline_commit: Some(commit),
            exclude_mode: ExcludeMode::NoExclude,
            is_directory: false,
            added_at: now_rfc3339(),
        };
        self.insert_new(path, entry)
    }

    /// Register `path` as a phantom: a local-only file, or directory, never indexed.
    pub fn add_phantom(&mut self, path: String, exclude: ExcludeMode, is_directory: bool) -> (r:
        Result<(), ShadowError>)
        requires
            old(self).wf(),
        ensures
            final(self).wf(),
            final(self).version == old(self).version,
            final(self).suspended == old(self).suspended,
            has_key(old(self).files_v(), path@) ==> r == Err::<(), ShadowError>(
                ShadowError::AlreadyManaged(path)) && final(self).files_v() == old(self).files_v(),
            !has_key(old(self).files_v(), path@) ==> r is Ok && final(self).files_v() == old(
                self,
            ).files_v().push(
                (
                    path@,
                    FileEntryView {
                        file_type: FileType::Phantom,
                        baseline_commit: None,
                        exclude_mode: exclude,
                        is_directory: is_directory,
                        added_at: final(self).files_v().last().1.added_at,
                    },
                ),
            ),
    {
        let entry = FileEntry {
            file_type: FileType::Phantom,
            baseline_commit: None,
            exclude_mode: exclude,
            is_directory,
            added_at: now_rfc3339(),
        };
        self.insert_new(path, entry)
    }

    /// Unregister `path`, handing back its entry.
    pub fn remove(&mut self, path: &str) -> (r: Result<FileEntry, ShadowError>)
        requires
            old(self).wf(),
        ensures
            final(self).wf(),
            final(self).version == old(self).version,
            final(self).suspended == old(self).suspended,
            final(self).files_v() == without_key(old(self).files_v(), path@),
            has_key(old(self).files_v(), path@) ==> (r matches Ok(e) && lookup(
                old(self).files_v(),
                path@,
            ) == Some(e@)),
            !has_key(old(self).files_v(), path@) ==> (r matches Err(ShadowError::NotManaged(p))
                && p@ == path@),
    {
        match self.position(path) {
            None => {
                proof {
                    lemma_without_absent_key(self.files_v(), path@);
                }
                Err(ShadowError::NotManaged(String::from_str(path)))
            },
            Some(i) => {
                let ghost before = self.files_v();
                proof {
                    lemma_without_at(before, path@, i as int);
                    lemma_lookup_at(before, path@, i as int);
                }
                let (_, entry) = self.files.remove(i);
                assert(self.files_v() =~= before.remove(i as int));
                assert(unique_keys(self.files_v())) by {
                    assert forall|a: int, b: int| 0 <= a < b < self.files_v().len() implies (
                    #[trigger] self.files_v()[a]).0 != (#[trigger] self.files_v()[b]).0 by {
                        let a2 = if a < i { a } else { a + 1 };
                        let b2 = if b < i { b } else { b + 1 };
                        assert(self.files_v()[a] == before[a2]);
                        assert(self.files_v()[b] == before[b2]);
                    }
                }
                Ok(entry)
            },
        }
    }

    /// Record that the baseline of `path` is now the content at `commit`;
    /// `false` when `path` is not registered.
    pub fn set_baseline_commit(&mut self, path: &str, commit: String) -> (r: bool)
        requires
            old(self).wf(),
        ensures
            final(self).wf(),
            final(self).version == old(self).version,
            final(self).suspended == old(self).suspended,
            r == has_key(old(self).files_v(), path@),
            final(self).files_v() == with_commit(old(self).files_v(), path@, commit@),
    {
        match self.position(path) {
            None => {
                assert(with_commit(self.files_v(), path@, commit@) =~= self.files_v());
                false
            },
            Some(i) => {
                let ghost before = self.files_v();
                let (k, mut e) = self.files.remove(i);
                e.baseline_commit = Some(commit);
                self.files.insert(i, (k, e));
                assert(self.files_v() =~= with_commit(before, path@, commit@)) by {
                    assert forall|j: int| 0 <= j < before.len() implies self.files_v()[j]
                        == with_commit(before, path@, commit@)[j] by {
                        if j != i {
                            assert(before[j].0 != before[i as int].0);
                        }
                    }
                }
                true
            },
        }
    }

    /// The entry registered under `path`.
    pub fn get(&self, path: &str) -> (r: Option<&FileEntry>)
        requires
            self.wf(),
        ensures
            r matches Some(e) ==> lookup(self.files_v(), path@) == Some(e@),
            r is None ==> lookup(self.files_v(), path@) is None,
    {
        match self.position(path) {
            None => {
                proof {
                    lemma_lookup_absent(self.files_v(), path@);
                }
                None
            },
            Some(i) => {
                proof {
                    lemma_lookup_at(self.files_v(), path@, i as int);
                }
                Some(&self.files[i].1)
            },
        }
    }
}

/// The files with the baseline commit of `k` set to `c`.
pub open spec fn with_commit(fs: FilesView, k: Seq<char>, c: Seq<char>) -> FilesView {
    fs.map_values(
        |p: (Seq<char>, FileEntryView)|
            if p.0 == k {
                (p.0, FileEntryView { baseline_commit: Some(c), ..p.1 })
            } else {
                p
            },
    )
}

proof fn lemma_lookup_absent(fs: FilesView, k: Seq<char>)
    requires
        !has_key(fs, k),
    ensures
        lookup(fs, k) is None,
    decreases fs.len(),
{
    if fs.len() > 0 {
        let d = fs.drop_last();
        assert(fs[fs.len() - 1] == fs.last());
        assert(!has_key(d, k)) by {
            if has_key(d, k) {
                let j = choose|j: int| 0 <= j < d.len() && (#[trigger] d[j]).0 == k;
                assert(fs[j] == d[j]);
            }
        }
        lemma_lookup_absent(d, k);
    }
}

pub proof fn lemma_lookup_at(fs: FilesView, k: Seq<char>, i: int)
    requires
        unique_keys(fs),
        0 <= i < fs.len(),
        fs[i].0 == k,
    ensures
        lookup(fs, k) == Some(fs[i].1),
    decreases fs.len(),
{
    let d = fs.drop_last();
    if i == fs.len() - 1 {
    } else {
        assert(fs.last() == fs[fs.len() - 1]);
        assert(unique_keys(d)) by {
            assert forall|a: int, b: int| 0 <= a < b < d.len() implies (#[trigger] d[a]).0 != (
            #[trigger] d[b]).0 by {
                assert(d[a] == fs[a] && d[b] == fs[b]);
            }
        }
        assert(d[i] == fs[i]);
        lemma_lookup_at(d, k, i);
    }
}

} // verus!
