[package]
name = "fast_plaid"
version = "0.1.0"
edition = "2021"
publish = false

[dependencies]
anyhow = "=1.0.104"
cuvs = "=25.10.0"
indicatif = "=0.17.11"
ndarray = "=0.15.6"
parking_lot = "=0.12.5"
pyo3 = { version = "=0.24.2", features = ["abi3-py38", "extension-module"] }
pyo3-tch = "=0.26.0"
rand = "=0.9.5"
regex = "=1.13.1"
serde = { version = "=1.0.229", features = ["derive"] }
serde_json = "=1.0.154"
tch = "=0.26.0"
