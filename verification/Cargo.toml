[package]
name = "om"
version = "0.1.0"
edition = "2021"
publish = false

[dependencies]
clap = { version = "*", features = ["derive"] }
roaring = "*"
serde = { version = "*", features = ["derive"] }
serde_json = "*"
