use vstd::prelude::*;

verus! {

/// Every failure that the library reports.
#[derive(Debug, Clone, PartialEq, Eq)]
pub enum ShadowError {
    NotAGitRepo,
    NotInitialized,
    FileNotTracked(String),
    AlreadyManaged(String),
    NotManaged(String),
    BinaryFile(String),
    FileTooLarge(String, u64, u64),
    LockHeld { pid: u32, timestamp: String },
    StaleLock(u32),
    StashRemaining,
    PartialStage(String),
    BaselineMissing(String),
    FileMissing(String),
    UnstageFailure(String),
    GitCommand { command: String, stderr: String },
    HooksNotInstalled,
    NonInteractiveWithoutForce,
    NotSuspended,
    AlreadySuspended,
    /// A lockfile is present: a commit is under way.
    CommitInProgress,
    /// The path has no content at HEAD.
    NotInHead(String),
    /// The path is not registered as an overlay.
    NotAnOverlay(String),
    /// A phantom path that git already knows.
    AlreadyTracked(String),
    /// An absolute path that does not lie under the repository root.
    OutsideRepo { path: String, root: String },
    /// A lockfile whose text is not `pid=<u32>` and `timestamp=<RFC 3339>`.
    InvalidLock(String),
}

} // verus!
