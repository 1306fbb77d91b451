[package]
name = "comment_stripper"
version = "0.1.0"
edition = "2021"
publish = false

[dependencies]
anyhow = "1"
libloading = "*"
object = { version = "*", features = ["write"] }
serde = { version = "1", features = ["derive"] }
serde_json = "1"
tree-sitter = "*"
