[package]
name = "rust_tokenizers"
version = "0.1.0"
edition = "2021"
publish = false

[dependencies]
regex = "1"
itertools = "*"
serde_json = "1"
pyo3 = "*"
