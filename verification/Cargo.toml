[package]
name = "kcrdt"
version = "0.1.0"
edition = "2021"
publish = false

[dependencies]
rand = "*"
humantime = "*"
serde = { version = "*", features = ["derive"] }
serde_json = "*"
