[package]
name = "parser_wasm"
version = "0.1.0"
edition = "2021"
publish = false

[dependencies]
lalrpop-util = "*"

[dev-dependencies]
path-clean = "*"
