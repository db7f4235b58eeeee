[package]
name = "dop"
version = "0.2.0"
edition = "2021"
publish = false

[dependencies]
regex = "1"
serde_json = "1"
serde_yaml = "0.9"
toml = "0.8"
mlua = { version = "0.9", features = ["lua54", "vendored", "serialize"] }
clap = { version = "4", features = ["derive"] }
chrono = "0.4"
