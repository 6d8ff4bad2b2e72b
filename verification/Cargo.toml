[package]
name = "oms"
version = "0.1.0"
edition = "2021"
publish = false

[dependencies]
bincode = "1.3"
crossbeam-channel = "0.5"
dotenvy = "0.15"
hmac = "0.12"
rand = "0.8"
rusteron-client = "0.2"
serde = { version = "1", features = ["derive"] }
serde_json = "1"
sha2 = "0.10"
socket2 = "0.5"
