//! The decisions of the user commands that change shadow state.

pub mod add;
pub mod doctor;
pub mod install;
pub mod rebase;
pub mod restore;
pub mod resume;
pub mod status;
pub mod suspend;
