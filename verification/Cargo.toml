[package]
name = "stringutils"
version = "0.1.0"
edition = "2021"
publish = false

[dependencies]
unicode-segmentation = "1"
ndarray = "0.16"
numpy = "0.22"
pyo3 = { version = "0.22", features = ["extension-module", "abi3-py38"] }
