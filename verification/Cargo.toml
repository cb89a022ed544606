[package]
name = "pipeline"
version = "0.1.0"
edition = "2021"
publish = false

[dependencies]
anyhow = "=1.0.104"
clap = { version = "=4.6.7", features = ["derive"] }
dirs = "=7.0.0"
petgraph = "=0.8.3"
serde = { version = "=1.0.229", features = ["derive"] }
toml = "=1.1.8"
tracing = "=0.1.44"
tracing-subscriber = { version = "=0.3.23", features = ["env-filter", "json"] }
walkdir = "=2.5.0"
xxhash-rust = { version = "=0.8.19", features = ["xxh3"] }
