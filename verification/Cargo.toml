[package]
name = "tgph"
version = "0.1.0"
edition = "2021"
publish = false

[dependencies]
byteorder = "1"
libdeflater = "1"
clap = { version = "4", features = ["derive"] }
sysinfo = { version = "0.29", default-features = false }
