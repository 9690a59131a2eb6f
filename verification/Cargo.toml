[package]
name = "foxguard"
version = "0.13.1"
edition = "2021"
publish = false

[dependencies]
axum = "*"
base64 = "*"
colored = "*"
ignore = "*"
regex = "*"
reqwest = { version = "*", default-features = false, features = ["json", "rustls"] }
serde = { version = "1", features = ["derive"] }
serde_json = "1"
serde_yaml_ng = "*"
sha2 = "*"
tempfile = "*"
tokio = { version = "1", features = ["full"] }
toml = "*"
tower-http = { version = "*", features = ["limit", "trace"] }
tracing = "*"
tree-sitter = "*"
tree-sitter-bash = "*"
tree-sitter-c = "*"
tree-sitter-c-sharp = "*"
tree-sitter-go = "*"
tree-sitter-java = "*"
tree-sitter-javascript = "*"
tree-sitter-kotlin-sg = "*"
tree-sitter-php = "*"
tree-sitter-python = "*"
tree-sitter-ruby = "*"
tree-sitter-rust = "*"
tree-sitter-swift = "*"
tree-sitter-typescript = "*"
walkdir = "*"
