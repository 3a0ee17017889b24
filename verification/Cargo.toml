[package]
name = "bingo"
version = "0.1.0"
edition = "2021"
publish = false

[dependencies]
clap = "*"
colored = "*"

[dev-dependencies]
serde_json = "*"
