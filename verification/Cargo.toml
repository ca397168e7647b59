[package]
name = "tla_cli"
version = "0.1.0"
edition = "2021"
publish = false

[dependencies]
anyhow = "1"
clap = { version = "4", features = ["derive"] }
serde = { version = "1", features = ["derive"] }
serde_json = "1"
tempfile = "3"
tree-sitter = "*"
tree-sitter-tlaplus = "*"
walkdir = "2"
which = "*"
