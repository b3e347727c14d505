[package]
name = "cix"
version = "0.1.0"
edition = "2021"
publish = false

[dependencies]
clap = { version = "=4.6.7", features = ["derive", "env"] }
colored = "=2.2.0"
dirs = "=5.0.1"
ignore = "=0.4.34"
reqwest = { version = "=0.12.28", default-features = false, features = ["json", "rustls-tls"] }
serde = { version = "=1.0.229", features = ["derive"] }
serde_json = "=1.0.154"
tantivy = "=0.22.1"
tokio = { version = "=1.54.1", features = ["macros", "process", "rt-multi-thread", "time"] }
tree-sitter = "0.25"
tree-sitter-c-sharp = "=0.23.5"
tree-sitter-cpp = "=0.23.4"
tree-sitter-rust = "=0.23.3"
