[package]
name = "ow_rs"
version = "0.1.0"
edition = "2021"
publish = false

[dependencies]
sha2 = "0.10"
serde_json = "1"
rayon = "1"
pyo3 = { version = "0.22", features = ["abi3-py38"] }
numpy = "0.22"
