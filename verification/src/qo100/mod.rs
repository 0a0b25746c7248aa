//! The QO-100 narrowband beacon.

pub mod bpsk;
pub mod code;
pub mod coded_laws;
pub mod controller;
pub mod fec;
pub mod gf256;
pub mod laws;
pub mod massey;
pub mod poly;
pub mod rs;
pub mod viterbi;
