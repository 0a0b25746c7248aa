//! OpenHPSDR radios.

pub mod discovery;
pub mod ioboard;
pub mod laws;
pub mod link;
pub mod protocol1;
