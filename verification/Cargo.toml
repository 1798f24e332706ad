[package]
name = "tinyrender"
version = "0.1.0"
edition = "2021"
publish = false

[dependencies]
anyhow = "*"
clap = { version = "*", features = ["cargo"] }
rand = "*"
tgar = "*"
