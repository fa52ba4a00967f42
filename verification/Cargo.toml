[package]
name = "world_weaver"
version = "0.1.0"
edition = "2021"
publish = false

[dependencies]
dirs = "*"
serde = { version = "*", features = ["derive"] }
serde-binary = "*"
serde_json = "*"
