//! The ADALM-Pluto, reached over its IIO daemon.

pub mod error;
pub mod laws;
