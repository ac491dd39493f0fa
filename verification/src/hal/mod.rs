//! What the kernel knows of the processor.

pub mod mmu;
