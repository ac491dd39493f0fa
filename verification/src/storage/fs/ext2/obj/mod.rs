//! Files and directories.

pub mod active;
pub mod contents;
pub mod dir;
pub mod file;
pub mod laws;
pub mod listing;
