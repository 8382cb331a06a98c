[package]
name = "dedupe"
version = "0.1.0"
edition = "2021"
publish = false

[dependencies]
anyhow = "1"
clap = { version = "4", features = ["derive"] }
colored = "3"
regex = "1"
rusqlite = { version = "*", features = ["bundled"] }
tracing = "0.1"
tracing-subscriber = "0.3"
walkdir = "2"
xxhash-rust = { version = "0.8", features = ["xxh3"] }
