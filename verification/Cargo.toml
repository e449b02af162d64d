[package]
name = "zed_mojom"
version = "0.1.0"
edition = "2021"
publish = false

[dependencies]
lsp-types = "*"
zed_extension_api = "*"
