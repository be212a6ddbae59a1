[package]
name = "baml_optimize"
version = "0.1.0"
edition = "2021"
publish = false

[dependencies]
anyhow = "1"
clap = { version = "4", features = ["derive"] }
indexmap = "2"
minijinja = "=2.24.0"
regex = "=1.13.1"
serde = { version = "=1.0.229", features = ["derive"] }
serde_json = { version = "=1.0.154", features = ["float_roundtrip"] }
similar = "=2.7.0"
tokio = { version = "1", features = ["rt-multi-thread", "sync", "time"] }
walkdir = "2"
