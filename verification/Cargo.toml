[package]
name = "ht_ledger"
version = "0.1.0"
edition = "2021"
publish = false

[dependencies]
rce = "=0.0.3"
rmp-serde = "*"
serde = { version = "=1.0.229", features = ["derive"] }
serde_json = "=1.0.151"
