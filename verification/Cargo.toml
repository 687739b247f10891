[package]
name = "stemsplits"
version = "0.1.0"
edition = "2021"
publish = false

[dependencies]
anyhow = "1"
libm = "0.2"
serde = { version = "1", features = ["derive"] }
serde_json = "1"
sha2 = "0.10"
