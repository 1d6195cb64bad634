[package]
name = "extension_table"
version = "0.1.0"
edition = "2021"
publish = false

[dependencies]
twenty-first = "<0.12"
rayon = "1"
num-traits = "0.2"
