[package]
name = "shittd"
version = "0.1.0"
edition = "2021"
publish = false

[dependencies]
anyhow = "1"
chrono = { version = "0.4", features = ["serde"] }
clap = { version = "4", features = ["derive"] }
home = "0.5"
serde = { version = "1", features = ["derive"] }
serde_json = "1"
