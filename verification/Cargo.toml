[package]
name = "explodesh"
version = "0.1.0"
edition = "2021"
publish = false

[dependencies]
anyhow = "1"
clap = { version = "3", features = ["derive"] }
regex = "1"
toml = "0.5"
