[package]
name = "hnsw_rs"
version = "0.1.0"
edition = "2021"
publish = false

[dependencies]
anndists = "0.1"
anyhow = "1"
log = "0.4"
serde = { version = "1", features = ["derive"] }
