[package]
name = "lizenz"
version = "0.1.0"
edition = "2021"
publish = false

[dependencies]
camino = "*"
clap = { version = "*", features = ["derive", "env"] }
glob-match = "*"
libloading = "*"
miette = "*"
serde = { version = "*", features = ["derive"] }
toml = "*"
tracing = "*"
tracing-subscriber = { version = "*", features = ["env-filter"] }
tree-sitter = "*"
tree-sitter-language = "*"
