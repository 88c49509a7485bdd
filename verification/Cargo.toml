[package]
name = "flashfind"
version = "0.1.0"
edition = "2021"
publish = false

[dependencies]
anyhow = "=1.0.104"
calamine = "=0.38.0"
chrono = "=0.4.45"
futures = "=0.3.34"
qdrant-client = { version = "=1.20.0", default-features = false, features = ["serde"] }
rusqlite = { version = "=0.39.0", features = ["bundled"] }
serde = { version = "=1.0.229", features = ["derive"] }
serde_json = "=1.0.154"
tokio = { version = "=1.54.1", features = ["rt-multi-thread", "macros", "time"] }
tree-sitter = "=0.26.13"
tree-sitter-c-sharp = "=0.23.5"
tree-sitter-cpp = "=0.23.4"
tree-sitter-python = "=0.25.0"
tree-sitter-rust = "=0.24.2"
walkdir = "=2.5.0"
