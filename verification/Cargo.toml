[package]
name = "gtboost"
version = "0.1.0"
edition = "2021"
publish = false

[dependencies]
rand = "*"
rayon = "*"
serde = { version = "*", features = ["derive"] }
serde_json = "*"
numpy = "*"
pyo3 = { version = "*", features = ["abi3-py310", "extension-module"] }
