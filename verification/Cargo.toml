[package]
name = "graphnn"
version = "0.1.0"
edition = "2021"
publish = false

[dependencies]
burn = { version = "0.18.0", default-features = false }
schemars = "1"
serde = { version = "1", features = ["derive"] }
