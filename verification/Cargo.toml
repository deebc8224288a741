[package]
name = "temporal_merge"
version = "0.1.0"
edition = "2021"
publish = false

[dependencies]
pgrx = { version = "=0.16.1", features = ["pg17"] }
serde_json = "=1.0.154"
xxhash-rust = { version = "=0.8.19", features = ["xxh3"] }
