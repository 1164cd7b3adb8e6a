[package]
name = "frozendict"
version = "2.1.1"
edition = "2021"
publish = false

[dependencies]
ahash = "0.8"
pyo3 = { version = "0.23", features = ["abi3-py38"] }
napi = { version = "2", features = ["serde-json"] }
napi-derive = "2"
serde_json = "1"
