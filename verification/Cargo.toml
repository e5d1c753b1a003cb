[package]
name = "tso_engine"
version = "0.1.0"
edition = "2021"
publish = false

[dependencies]
rand = "=0.8.8"
ndarray = { version = "=0.16.1", features = ["serde"] }
serde = { version = "=1.0.229", features = ["derive"] }
image = { version = "=0.25.10", default-features = false, features = ["png"] }
