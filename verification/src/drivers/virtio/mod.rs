//! Virtio devices.

pub mod blk;
pub mod finding;
pub mod laws;
pub mod mmio;
