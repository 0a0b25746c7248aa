//! Radio-side logic of an SDR application.

pub mod fobos;
pub mod hackrf;
pub mod hpsdr;
pub mod ism;
pub mod net;
pub mod pluto;
pub mod qo100;
pub mod ring;
pub mod text;
pub mod text_laws;
