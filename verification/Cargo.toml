[package]
name = "tda_rs"
version = "0.1.0"
edition = "2021"
publish = false

[dependencies]
itertools = "0.12"
nalgebra = "0.32"
rand = "0.8"
serde = { version = "1", features = ["derive"] }

[dev-dependencies]
serde_json = "1"
