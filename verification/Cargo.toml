[package]
name = "scytale"
version = "0.1.0"
edition = "2021"
publish = false

[dependencies]
csv = "1"
ngrams = "1"
serde = { version = "1", features = ["derive"] }
serde_derive = "1"
