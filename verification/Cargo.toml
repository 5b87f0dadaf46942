[package]
name = "precommit_check"
version = "0.1.0"
edition = "2021"
publish = false

[dependencies]
anyhow = "1"
blake3 = "1"
bstr = "1"
clap = { version = "4", features = ["derive"] }
