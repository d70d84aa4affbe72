[package]
name = "rust_consistent_hash"
version = "0.1.0"
edition = "2021"
publish = false

[dependencies]
twox-hash = "1.6"
