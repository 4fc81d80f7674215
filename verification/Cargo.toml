[package]
name = "rhi"
version = "0.1.0"
edition = "2021"
publish = false

[dependencies]
ash = "0.38"
serde = { version = "1", features = ["derive"] }
serde_json = "1"
