[package]
name = "goldilocks_field"
version = "0.1.0"
edition = "2021"
publish = false

[dependencies]
serde = { version = "1", features = ["derive"] }
derivative = "2"

[dev-dependencies]
rand = "0.8"
