[package]
name = "organiza"
version = "0.2.0"
edition = "2021"
publish = false

[dependencies]
anyhow = "1"
clap = { version = "4", features = ["derive"] }
rust-i18n = "3"
serde = { version = "1", features = ["derive"] }
toml = "0.8"
walkdir = "2"
