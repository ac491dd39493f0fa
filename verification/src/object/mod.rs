//! Kernel objects and what is asked of them.

pub mod directory;
pub mod file_vmo;
pub mod handle;
pub mod invoke;
pub mod laws;
pub mod packet;
pub mod rights;
pub mod vmo;

