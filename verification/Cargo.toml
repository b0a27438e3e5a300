[package]
name = "editor"
version = "0.1.0"
edition = "2021"
publish = false

[dependencies]
anyhow = "1"
chrono = "0.4"
editor-core = "*"
git2 = { version = "*", default-features = false }
quote = "1"
serde = { version = "1", features = ["derive"] }
serde_json = "1"
syn = { version = "2", features = ["full"] }
thiserror = "*"
tokio = { version = "1", features = ["process", "io-util", "sync", "rt", "macros"] }
tree-sitter = "*"
tree-sitter-c = "*"
tree-sitter-cpp = "*"
tree-sitter-css = "*"
tree-sitter-go = "*"
tree-sitter-html = "*"
tree-sitter-javascript = "*"
tree-sitter-python = "*"
tree-sitter-rust = "*"
tree-sitter-typescript = "*"
unicode-segmentation = "1"
walkdir = "2"
zstd = "*"
