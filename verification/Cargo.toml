[package]
name = "hashio"
version = "0.1.0"
edition = "2021"
publish = false

[dependencies]
byteorder = "1"
rust-crypto = "0.2.36"
