//! Threads and the order in which they run.

pub mod keeping;
pub mod laws;
pub mod scheduler;

use vstd::prelude::*;

verus! {

/// The priorities that threads are started at.
#[derive(Debug, Clone, Copy, PartialEq, Eq, Structural)]
pub enum ThreadPriority {
    Idle,
    Medium,
    High,
    Maximum,
}

} // verus!
