[package]
name = "louvain"
version = "0.1.0"
edition = "2021"
publish = false

[dependencies]
rustc-hash = "2"
rand = "0.8"
csv = "1"
anyhow = "1"
