[package]
name = "sdroxide"
version = "0.1.0"
edition = "2021"
publish = false

[dependencies]
crossbeam-channel = "0.5"
libloading = "*"
network-interface = "*"
rtrb = "0.3"
rustfft = "6"
thiserror = "2"
tracing = "0.1"
