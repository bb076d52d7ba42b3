[package]
name = "kompressor"
version = "0.1.0"
edition = "2021"
publish = false

[dependencies]
rayon = "1.10"
pyo3 = { version = "0.23", features = ["abi3-py311"] }
