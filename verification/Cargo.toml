[package]
name = "ncf"
version = "0.1.0"
edition = "2021"
publish = false

[dependencies]
anyhow = "1"
blake3 = { version = "1", features = ["pure"] }
bytes = "1"
chrono = "0.4"
ciborium = "0.2"
crossbeam = "0.8"
gguf = "*"
libc = "0.2"
memmap2 = "0.9"
once_cell = "1"
pyo3 = { version = "0.20", features = ["abi3-py38", "extension-module"] }
safetensors = "*"
self_cell = "1"
serde = { version = "1", features = ["derive"] }
serde_cbor = "0.11"
thiserror = "1"
xxhash-rust = { version = "0.8", features = ["xxh3"] }
zstd = "0.13"
