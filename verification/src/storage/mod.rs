//! Block devices, partitions and file systems.

pub mod blockdev;
pub mod fs;
pub mod partition;
