//! The HackRF, a half-duplex transceiver on USB.

pub mod handle;
pub mod laws;
