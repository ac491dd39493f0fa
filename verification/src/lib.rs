//! The machine-independent core of the Vespertine kernel.
//!
//! Addresses, sizes and byte counts are 64 bits wide throughout, as on the
//! machines the kernel runs on, so they are `u64` here.

pub mod common;
pub mod drivers;
pub mod hal;
pub mod memory;
pub mod object;
pub mod process;
pub mod program;
pub mod sched;
pub mod storage;
pub mod xtask;
