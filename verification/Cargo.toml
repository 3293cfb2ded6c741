[package]
name = "grimp"
version = "0.1.0"
edition = "2021"
publish = false

[dependencies]
encoding_rs = "*"
itertools = "*"
pyo3 = "*"
regex = "*"
rustc-hash = "*"
serde_json = "*"
tap = "*"
unindent = "*"
