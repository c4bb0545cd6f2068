[package]
name = "cargo_print"
version = "0.1.0"
edition = "2021"
publish = false

[dependencies]
cargo_metadata = "*"
