[package]
name = "nlm_service"
version = "0.1.0"
edition = "2021"
publish = false

[dependencies]
byteorder = "1"
anyhow = "1"
tracing = "0.1"
