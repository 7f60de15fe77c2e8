[package]
name = "package_metadata"
version = "0.1.0"
edition = "2021"
publish = false

[dependencies]
hex = "0.4"
serde = { version = "1", features = ["derive"] }
serde_bytes = "0.11"
serde_json = "1"

[dev-dependencies]
bcs = "0.1"
