[package]
name = "word_lsp"
version = "0.1.0"
edition = "2021"
publish = false

[dependencies]
indexmap = "*"
lsp-server = "*"
lsp-types = "*"
serde = "*"
serde_json = "*"
env_logger = "*"
log = "*"
itertools = "*"
