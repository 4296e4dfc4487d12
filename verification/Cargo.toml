[package]
name = "cutgraph"
version = "0.1.0"
edition = "2021"
publish = false

[dependencies]
egglog = "=3.0.0"
egglog-numeric-id = "=3.0.0"
pyo3 = { version = "=0.25.1", features = ["abi3-py39", "extension-module"] }
