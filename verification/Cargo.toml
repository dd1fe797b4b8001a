[package]
name = "astree"
version = "0.1.0"
edition = "2021"
publish = false

[dependencies]
clap = { version = "3.2", features = ["derive"] }
itertools = "0.10"
num = "0.4"
