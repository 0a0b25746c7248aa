//! The RigExpert Fobos SDR, reached through its vendor library.

pub mod device;
pub mod error;
pub mod handle;
pub mod laws;
pub mod stream;
