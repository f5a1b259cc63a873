[package]
name = "ambits"
version = "0.1.0"
edition = "2021"
publish = false

[dependencies]
sha2 = "*"
clap = { version = "*", features = ["derive"] }
color-eyre = "*"
crossterm = "*"
notify = "*"
ratatui = "*"
serde_json = "*"
serde-pickle = "*"
tree-sitter = "*"
tree-sitter-python = "*"
tree-sitter-rust = "*"
tree-sitter-typescript = "*"
