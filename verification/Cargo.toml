[package]
name = "sdiff"
version = "0.1.0"
edition = "2021"
publish = false

[dependencies]
anyhow = "1"
clap = { version = "4", features = ["derive"] }
colored = "2"
serde_json = "1"
serde_yaml = "0.9"
thiserror = "1"
toml = "0.8"
