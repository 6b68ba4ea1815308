[package]
name = "outou"
version = "0.1.0"
edition = "2021"
publish = false

[dependencies]
serde = { version = "=1.0.229", features = ["derive"] }
serde_json = "=1.0.154"
lsp-types = "=0.97.0"
lsp-server = "0.7"
crossbeam-channel = "0.5"
thiserror = "=2.0.21"
