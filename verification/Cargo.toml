[package]
name = "key_backups"
version = "0.1.0"
edition = "2021"
publish = false

[dependencies]
cargo_toml = "=1.0.1"
ruma = { version = "=0.17.0", features = ["client-api-s"] }
serde_json = { version = "=1.0.151", features = ["raw_value"] }
