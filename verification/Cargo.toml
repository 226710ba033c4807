[package]
name = "bitkv"
version = "0.1.0"
edition = "2021"
publish = false

[dependencies]
crc32fast = "1"
anyhow = "1"
bytes = "1"
tokio = { version = "1", features = ["fs", "rt"] }

[dev-dependencies]
prost = "*"
