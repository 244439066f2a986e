[package]
name = "bee_tangle"
version = "0.1.0"
edition = "2021"
publish = false

[dependencies]
lru = { version = "=0.18.5", default-features = false }
tokio = { version = "*", default-features = false, features = ["sync"] }
