use vstd::prelude::*;

use crate::error::ShadowError;
use crate::path::{join_path, joined_path};
use crate::text::{lines, split_lines, trim, trimmed, views};

verus! {

/// Where a repository's files lie: the worktree root, the `.git` directory and
/// the shadow directory inside it.
pub struct GitRepo {
    pub root: String,
    pub git_dir: String,
    pub shadow_dir: String,
}

/// What to do next while unstaging a phantom.
pub enum UnstageStep {
    /// Run git with these arguments; on success the path is unstaged.
    Run(Vec<String>),
    /// Every strategy failed.
    GiveUp(ShadowError),
}

/// Index of the first space in `s` at or after `i`, or the length.
pub open spec fn space_at(s: Seq<char>, i: int) -> int
    decreases s.len() - i,
{
    if i < 0 || i >= s.len() || s[i] == ' ' {
        i
    } else {
        space_at(s, i + 1)
    }
}

/// The second space-separated field of a line that has a space.
pub open spec fn second_field(l: Seq<char>) -> Seq<char> {
    let a = space_at(l, 0);
    let b = space_at(l, a + 1);
    l.subrange(a + 1, b)
}

/// A line of `git status --porcelain=v2` about a changed tracked entry.
pub open spec fn is_change_line(l: Seq<char>) -> bool {
    l.len() > 0 && (l[0] == '1' || l[0] == '2') && space_at(l, 0) < l.len()
}

/// The `XY` flags of a change line: whether the index and the worktree differ.
pub open spec fn flags_of(l: Seq<char>) -> (bool, bool) {
    let xy = second_field(l);
    (xy.len() > 0 && xy[0] != '.', xy.len() > 1 && xy[1] != '.')
}

/// The flags of the first change line, or a clean path.
pub open spec fn staging_of(ls: Seq<Seq<char>>) -> (bool, bool)
    decreases ls.len(),
{
    if ls.len() == 0 {
        (false, false)
    } else if is_change_line(ls[0]) {
        flags_of(ls[0])
    } else {
        staging_of(ls.skip(1))
    }
}

/// The git arguments of each way to take a path out of the index, in order.
pub open spec fn unstage_args(path: Seq<char>, attempt: int) -> Seq<Seq<char>> {
    if attempt == 0 {
        seq!["rm"@, "--cached"@, "--ignore-unmatch"@, path]
    } else if attempt == 1 {
        seq!["restore"@, "--staged"@, path]
    } else {
        seq!["reset"@, "--"@, path]
    }
}

fn find_space(s: &str, n: usize, i: usize) -> (e: usize)
    requires
        n == s@.len(),
        i <= n,
    ensures
        i <= e <= n,
        e == space_at(s@, i as int),
{
    let mut j = i;
    while j < n && s.get_char(j) != ' '
        invariant
            n == s@.len(),
            i <= j <= n,
            space_at(s@, i as int) == space_at(s@, j as int),
        decreases n - j,
    {
        j = j + 1;
    }
    j
}

impl GitRepo {
    /// The repository whose worktree root is `root`.
    pub fn at_root(root: &str) -> (r: GitRepo)
        ensures
            r.root@ == root@,
            r.git_dir@ == joined_path(root@, ".git"@),
            r.shadow_dir@ == joined_path(joined_path(root@, ".git"@), "shadow"@),
    {
        let git_dir = join_path(root, ".git");
        let shadow_dir = join_path(git_dir.as_str(), "shadow");
        GitRepo { root: String::from_str(root), git_dir, shadow_dir }
    }

    /// The repository that `git rev-parse --show-toplevel` reported: `ok` is its
    /// success, `output` what it printed.
    pub fn discover(ok: bool, output: &str) -> (r: Result<GitRepo, ShadowError>)
        ensures
            !ok ==> r == Err::<GitRepo, ShadowError>(ShadowError::NotAGitRepo),
            ok ==> (r matches Ok(g) && g.root@ == trimmed(output@) && g.shadow_dir@ == joined_path(
                joined_path(trimmed(output@), ".git"@),
                "shadow"@,
            )),
    {
        if !ok {
            return Err(ShadowError::NotAGitRepo);
        }
        let root = trim(output);
        Ok(GitRepo::at_root(root.as_str()))
    }

    /// The commit id that `git rev-parse HEAD` printed, without white space.
    pub fn head_commit(output: &str) -> (r: String)
        ensures
            r@ == trimmed(output@),
    {
        trim(output)
    }

    /// Whether the index differs from HEAD, and the worktree from the index,
    /// read from the output of `git status --porcelain=v2 -- <path>`.
    pub fn staging_status(output: &str) -> (r: (bool, bool))
        ensures
            r == staging_of(lines(output@)),
    {
        let ls = split_lines(output);
        let mut i: usize = 0;
        assert(views(ls@).skip(0) =~= views(ls@));
        while i < ls.len()
            invariant
                i <= ls.len(),
                views(ls@) == lines(output@),
                staging_of(views(ls@).skip(i as int)) == staging_of(lines(output@)),
            decreases ls.len() - i,
        {
            let ghost rest = views(ls@).skip(i as int);
            assert(rest.skip(1) =~= views(ls@).skip(i + 1));
            assert(rest[0] == ls@[i as int]@);
            let l = ls[i].as_str();
            let n = l.unicode_len();
            if n > 0 && (l.get_char(0) == '1' || l.get_char(0) == '2') {
                let a = find_space(l, n, 0);
                if a < n {
                    let b = find_space(l, n, a + 1);
                    let x = if b > a + 1 {
                        l.get_char(a + 1) != '.'
                    } else {
                        false
                    };
                    let y = if b - a > 2 {
                        l.get_char(a + 2) != '.'
                    } else {
                        false
                    };
                    assert(second_field(l@) =~= l@.subrange(a + 1, b as int));
                    return (x, y);
                }
            }
            i = i + 1;
        }
        (false, false)
    }

    /// The stage command: `git add <path>`.
    pub fn add(path: &str) -> (r: Vec<String>)
        ensures
            views(r@) == seq!["add"@, path@],
    {
        let mut r: Vec<String> = Vec::new();
        r.push(String::from_str("add"));
        r.push(String::from_str(path));
        assert(views(r@) =~= seq!["add"@, path@]);
        r
    }

    /// The next way to take the phantom `path` out of the index after
    /// `failed_attempts` ways have failed: `git rm --cached --ignore-unmatch`,
    /// then `git restore --staged`, then `git reset --`; after that, give up.
    pub fn unstage_phantom(path: &str, failed_attempts: usize) -> (r: UnstageStep)
        ensures
            failed_attempts < 3 ==> (r matches UnstageStep::Run(args) && views(args@)
                == unstage_args(path@, failed_attempts as int)),
            failed_attempts >= 3 ==> (r matches UnstageStep::GiveUp(ShadowError::UnstageFailure(p))
                && p@ == path@),
    {
        let mut r: Vec<String> = Vec::new();
        if failed_attempts == 0 {
            r.push(String::from_str("rm"));
            r.push(String::from_str("--cached"));
            r.push(String::from_str("--ignore-unmatch"));
        } else if failed_attempts == 1 {
            r.push(String::from_str("restore"));
            r.push(String::from_str("--staged"));
        } else if failed_attempts == 2 {
            r.push(String::from_str("reset"));
            r.push(String::from_str("--"));
        } else {
            return UnstageStep::GiveUp(ShadowError::UnstageFailure(String::from_str(path)));
        }
        r.push(String::from_str(path));
        assert(views(r@) =~= unstage_args(path@, failed_attempts as int));
        UnstageStep::Run(r)
    }
}

} // verus!
