[package]
name = "cargo_all"
version = "0.1.0"
edition = "2021"
publish = false

[dependencies]
anyhow = "*"
clap = { version = "*", features = ["derive"] }
color-eyre = "*"
tracing = "*"
tracing-subscriber = "*"
walkdir = "*"
