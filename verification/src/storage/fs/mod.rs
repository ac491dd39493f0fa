//! File systems.

pub mod ext2;
