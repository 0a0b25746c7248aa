//! The ISM bands: sensors, meters and home automation.

pub mod controller;
pub mod devices;
pub mod laws;
pub mod plan;
