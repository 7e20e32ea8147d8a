[package]
name = "tau_core"
version = "0.1.0"
edition = "2021"
publish = false

[dependencies]
xxhash-rust = { version = "=0.8.19", features = ["xxh32", "xxh3"] }
rand = "=0.10.3"
names = { version = "=0.14.0", default-features = false }
serde = { version = "=1.0.229", features = ["derive"] }
serde_json = "=1.0.154"
zstd = "*"
