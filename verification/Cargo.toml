[package]
name = "kitt-native-engine"
version = "0.1.0"
edition = "2021"
publish = false

[dependencies]
anyhow = "=1.0.104"
hex = "=0.4.3"
ignore = "=0.4.34"
pyo3 = { version = "0.23", features = ["abi3-py39"] }
pythonize = "0.23"
regex = "=1.13.1"
serde = { version = "=1.0.229", features = ["derive"] }
serde_json = "=1.0.154"
sha2 = "=0.10.9"
sysinfo = "=0.40.1"
tempfile = "=3.27.0"
tree-sitter = "=0.27.1"
tree-sitter-go = "=0.25.0"
tree-sitter-java = "=0.23.5"
tree-sitter-javascript = "=0.25.0"
tree-sitter-python = "=0.25.0"
tree-sitter-rust = "=0.24.2"
tree-sitter-typescript = "=0.23.2"
