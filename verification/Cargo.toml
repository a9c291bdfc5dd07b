[package]
name = "semtrace"
version = "0.1.0"
edition = "2021"
publish = false

[dependencies]
sha2 = "*"
hex = "*"
anyhow = "*"
chrono = "*"
clap = { version = "*", features = ["derive"] }
regex = "*"
serde = { version = "*", features = ["derive"] }
serde_json = "*"
