[package]
name = "dupfinder"
version = "0.1.0"
edition = "2021"
publish = false

[dependencies]
anyhow = "1"
clap = { version = "4", features = ["derive"] }
globset = "0.4"
ignore = "0.4"
serde_json = "1"
tree-sitter = "*"
tree-sitter-rust = "*"
tree-sitter-typescript = "*"
