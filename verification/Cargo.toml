[package]
name = "ast-grep-ffi"
version = "0.1.0"
edition = "2021"
publish = false

[dependencies]
ast-grep-config = "*"
ast-grep-core = "*"
ast-grep-language = "*"
serde = { version = "1", features = ["derive"] }
serde_json = "1"
