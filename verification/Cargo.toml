[package]
name = "scheduler"
version = "0.1.0"
edition = "2021"
publish = false

[dependencies]
indexmap = "2"
rand = "0.9"
csv = "1"
clap = { version = "4", features = ["derive"] }
indicatif = "0.17"
