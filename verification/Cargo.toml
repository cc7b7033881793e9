[package]
name = "languagetool-code-comments"
version = "0.1.0"
edition = "2021"
publish = false

[dependencies]
anyhow = "=1.0.104"
async-std = "=1.13.2"
clap = "=3.2.25"
clap_complete = "=3.2.5"
colored = "=2.2.0"
dirs = "=4.0.0"
fstrings = "=0.2.3"
futures = "=0.3.34"
languagetool-rust = "=1.3.0"
lazy_static = "=1.5.1"
serde = { version = "=1.0.229", features = ["derive"] }
serde_json = "=1.0.154"
tokio = { version = "=1.54.1", features = ["macros", "rt-multi-thread"] }
tree-sitter = "=0.20.10"
url = "=2.5.8"
xxhash-rust = { version = "=0.8.19", features = ["xxh3"] }
