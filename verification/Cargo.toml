[package]
name = "spwn"
version = "0.1.0"
edition = "2021"
publish = false

[dependencies]
slotmap = "=1.1.1"
ahash = "=0.8.12"
ansi_term = "=0.12.1"
fnv = "1.0"
serde = { version = "=1.0.229", features = ["derive"] }
serde_json = "=1.0.154"
