[package]
name = "budoux_mod2"
version = "0.1.0"
edition = "2021"
publish = false

[dependencies]
anyhow = "=1.0.104"
aviutl2 = "=0.52.1"
dashmap = "=6.2.1"
include_json = "=0.1.3"
serde = { version = "=1.0.229", features = ["derive"] }
serde_json = "=1.0.154"
serde_repr = "=0.1.21"
xxhash-rust = { version = "=0.8.19", features = ["xxh3"] }
