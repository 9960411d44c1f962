[package]
name = "huff"
version = "0.1.0"
edition = "2021"

[dependencies]
anyhow = "1"
bitbit = "*"
clap = { version = "3.2", features = ["derive"] }
