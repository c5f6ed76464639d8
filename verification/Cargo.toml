[package]
name = "dev-tools-rs"
version = "0.1.0"
edition = "2021"
publish = false

[dependencies]
atty = "0.2"
base64 = "0.22"
chrono = "0.4"
clap = { version = "4", features = ["derive"] }
hex = "0.4"
html-escape = "0.2"
rand = "0.8"
serde = { version = "1", features = ["derive"] }
serde_json = "1"
urlencoding = "2"
