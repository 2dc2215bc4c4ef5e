[package]
name = "saeitoshi"
version = "0.2.0"
edition = "2021"
publish = false

[dependencies]
bytemuck = "1"
half = "2"
ndarray = "0.16"
numpy = "0.22"
pyo3 = { version = "0.22", features = ["extension-module", "abi3-py310"] }
rayon = "1"
safetensors = "0.4"
serde = { version = "1", features = ["derive"] }
serde_json = "1"
thiserror = "1"
