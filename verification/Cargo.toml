[package]
name = "egfx_codecs"
version = "0.1.0"
edition = "2021"
publish = false

[dependencies]
ironrdp-core = { version = "0.1", features = ["std"] }
