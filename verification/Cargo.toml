[package]
name = "repl_editor"
version = "0.1.0"
edition = "2021"
publish = false

[dependencies]
anyhow = "=1.0.104"

[dev-dependencies]
tree-sitter = "=0.27.1"
tree-sitter-python = "=0.25.0"
tree-sitter-md = "=0.5.4"
tree-sitter-typescript = "*"
