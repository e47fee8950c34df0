//! The decisions of the git hooks: what the pre-commit and post-commit phases do.

pub mod post_commit;
pub mod pre_commit;
