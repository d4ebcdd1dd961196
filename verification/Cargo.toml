[package]
name = "token_dawg"
version = "0.1.0"
edition = "2021"
publish = false

[dependencies]
anyhow = "1"
bincode = "1.3.3"
kdam = "*"
serde = { version = "1", features = ["derive"] }
serde_json = "1"
