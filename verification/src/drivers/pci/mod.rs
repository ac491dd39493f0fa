//! The PCI bus.

pub mod config;
pub mod laws;
