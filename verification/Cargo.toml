[package]
name = "lsm_core"
version = "0.1.0"
edition = "2021"
publish = false

[dependencies]
byteorder = "1"
crc = "1.8"
failure = "0.1"

[dev-dependencies]
spectral = "0.6"
