//! Partition tables.

pub mod gpt;
pub mod laws;
