[package]
name = "codex_agentic"
version = "0.1.0"
edition = "2021"
publish = false

[dependencies]
anyhow = "*"
chrono = "*"
clap = { version = "*", features = ["derive"] }
hex = "*"
hnsw_rs = "*"
ignore = "*"
pathdiff = "*"
ratatui = "*"
regex = "*"
serde = { version = "*", features = ["derive"] }
serde_json = "*"
sha2 = "*"
supports-color = "*"
time = { version = "*", features = ["formatting", "parsing"] }
tree-sitter = "*"
tree-sitter-python = "*"
tree-sitter-rust = "*"
