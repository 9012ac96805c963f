[package]
name = "lophat"
version = "0.1.0"
edition = "2021"
publish = false

[dependencies]
bit-set = "*"
serde = { version = "1", features = ["derive"] }
ciborium = "*"
