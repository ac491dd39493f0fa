//! Small helpers that the rest of the kernel shares.

pub mod bitwise;
pub mod bytes;
pub mod text;
