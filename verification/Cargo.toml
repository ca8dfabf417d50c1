[package]
name = "revspec"
version = "0.1.0"
edition = "2021"
publish = false

[dependencies]
smallvec = "1"
anyhow = "1"
cargo_metadata = "*"
