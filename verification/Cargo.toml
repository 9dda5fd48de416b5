[package]
name = "toon_validate"
version = "0.1.0"
edition = "2021"
publish = false

[dependencies]
serde = { version = "*", features = ["derive"] }
serde_json = "*"
prettytable-rs = "*"
walkdir = "*"
