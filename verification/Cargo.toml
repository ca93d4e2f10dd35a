[package]
name = "rusty_ledger"
version = "0.1.0"
edition = "2021"
publish = false

[dependencies]
base64 = "*"
sha2 = "*"
uuid = { version = "*", features = ["v4"] }
chrono = "*"
iso_currency = "*"
serde = { version = "*", features = ["derive"] }
serde_json = "*"
toml = "*"
clap = { version = "*", features = ["derive"] }
