[package]
name = "rpgrep"
version = "0.2.6"
edition = "2021"
publish = false

[dependencies]
anyhow = "1"
clap = { version = "4", features = ["derive"] }
instant-distance = "*"
memmap2 = "0.9"
notify-debouncer-mini = "*"
rand = "0.9"
rand_distr = "0.5"
rkyv = "0.8"
serde = { version = "1", features = ["derive"] }
serde_json = "1"
thiserror = "2"
tree-sitter = "*"
tree-sitter-c = "*"
tree-sitter-dart = "*"
tree-sitter-go = "*"
tree-sitter-javascript = "*"
tree-sitter-python = "*"
tree-sitter-rust = "*"
tree-sitter-typescript = "*"
walkdir = "2"
xorf = "0.11"

[dev-dependencies]
rand_chacha = "0.9"
