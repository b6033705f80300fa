[package]
name = "handyxmutter"
version = "0.1.0"
edition = "2021"
publish = false

[dependencies]
anyhow = "1"
chrono = { version = "0.4", default-features = false, features = ["clock"] }
clap = { version = "4", features = ["derive"] }
hound = "3"
log = "0.4"
pyannote-rs = "*"
serde = { version = "1", features = ["derive"] }
serde_json = "1"
