[package]
name = "cargo-issafe"
version = "0.1.0"
edition = "2021"
publish = false

[dependencies]
rustc_lexer = "0.1.0"
