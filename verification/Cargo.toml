[package]
name = "barnacle"
version = "0.1.0"
edition = "2021"
publish = false

[dependencies]
rand = "0.8"
serde = { version = "1", features = ["derive"] }
serde_yaml = "0.9"
clap = "4"
config = { version = "0.14", default-features = false, features = ["toml"] }
chrono = "0.4"
prettytable-rs = "0.10"
walkdir = "2"
