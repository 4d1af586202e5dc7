[package]
name = "sdivi"
version = "0.1.0"
edition = "2021"
publish = false

[dependencies]
petgraph = "=0.6.5"
blake3 = "=1.8.7"
globset = "=0.4.21"
serde = { version = "=1.0.229", features = ["derive"] }
serde_json = "=1.0.154"
chrono = { version = "=0.4.45", features = ["serde"] }
thiserror = "=1.0.69"
tempfile = "=3.27.0"
tree-sitter = "=0.22.6"
tree-sitter-rust = "=0.21.2"
