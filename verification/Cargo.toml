[package]
name = "tree_worm"
version = "0.1.0"
edition = "2021"
publish = false

[dependencies]
anyhow = "1"
clap = { version = "4", features = ["derive"] }
ignore = "0.4"
indicatif = "0.18"
petgraph = "=0.8.3"
rayon = "1"
rmcp = { version = "0.16", features = ["server", "transport-io", "macros"] }
rusqlite = { version = "*", features = ["bundled"] }
schemars = "1"
serde = { version = "1", features = ["derive"] }
serde_json = "1"
tokio = { version = "1", features = ["rt-multi-thread", "macros"] }
tracing = "0.1"
tracing-subscriber = { version = "0.3", features = ["env-filter"] }
tree-sitter = "0.26"
tree-sitter-javascript = "=0.25.0"
tree-sitter-typescript = "=0.23.2"
