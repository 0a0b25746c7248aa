//! Spotting networks.

pub mod cluster;
pub mod cluster_laws;
pub mod ipfix_laws;
pub mod pskupload;
