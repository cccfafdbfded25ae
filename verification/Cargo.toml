[package]
name = "mdbook-obsidian"
version = "0.1.0"
edition = "2021"
publish = false

[dependencies]
urlencoding = "2"
lz-str = "*"
mdbook-preprocessor = "*"
serde_json = "1"
ignore = "0.4"
regex = "1"
