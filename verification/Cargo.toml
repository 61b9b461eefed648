[package]
name = "watch-floor"
version = "0.1.0"
edition = "2021"
publish = false

[dependencies]
tree-sitter = "*"
tree-sitter-python = "*"
anyhow = "*"
clap = { version = "4", features = ["derive"] }
notify = "*"
ratatui = "*"
libc = "*"

[dev-dependencies]
tempfile = "*"
