[package]
name = "syntax_map"
version = "0.1.0"
edition = "2021"
publish = false

[dependencies]
tree-sitter = "=0.20.10"
zed-sum-tree = "=0.2.0"

[dev-dependencies]
tree-sitter-rust = "=0.20.4"
