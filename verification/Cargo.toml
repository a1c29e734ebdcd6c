[package]
name = "kerai"
version = "0.1.0"
edition = "2021"
publish = false

[dependencies]
base64 = "=0.22.1"
csv = "=1.4.0"
ed25519-dalek = { version = "=2.2.0", features = ["rand_core"] }
hex = "=0.4.3"
rand = "=0.8.8"
regex = "=1.13.1"
serde_json = "=1.0.154"
syn = { version = "=2.0.119", features = ["full"] }
uuid = { version = "=1.29.0", features = ["v4"] }
walkdir = "=2.5.0"
