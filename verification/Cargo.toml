[package]
name = "tfcheck"
version = "0.1.0"
edition = "2021"
publish = false

[dependencies]
argh = "0.1"
colored = "2"
glob = "0.3"
pulldown-cmark = "0.8"
serde = { version = "1", features = ["derive"] }
tinytemplate = "1"
tree-sitter = "0.20"
