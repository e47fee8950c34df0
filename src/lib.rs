//! Local-only shadow changes for files of a git repository: the path codec,
//! the registry, the lockfile rules, the ignore-file section and the commit
//! transaction that hides shadow content from each commit and brings it back.

pub mod commands;
pub mod config;
pub mod cycle;
pub mod diff_util;
pub mod disk;
pub mod error;
pub mod exclude;
pub mod fs_util;
pub mod git;
pub mod hooks;
pub mod lock;
pub mod merge;
pub mod path;
pub mod text;
