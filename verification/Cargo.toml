[package]
name = "herdr"
version = "0.1.0"
edition = "2021"
publish = false

[dependencies]
ratatui = "*"
regex = "*"
serde = { version = "1", features = ["derive"] }
serde_json = "1"
unicode-width = "*"
