[package]
name = "pyq"
version = "0.1.0"
edition = "2021"
publish = false
rust-version = "1.95"

[dependencies]
anyhow = "1"
bincode = "1"
blake3 = "1"
clap = { version = "4", features = ["derive"] }
dirs = "*"
ignore = "0.4"
indicatif = "0.17"
mimalloc = "0.1"
ruff_python_ast = ">=0.0.0, <0.0.9"
ruff_python_parser = ">=0.0.0, <0.0.9"
ruff_text_size = ">=0.0.0, <0.0.9"
self-replace = "1"
serde = { version = "1", features = ["derive"] }
serde_json = "1"
sha2 = "0.10"
tempfile = "3"
toml = "0.8"
ureq = { version = "2", features = ["json"] }
