[package]
name = "serde_bencode"
version = "0.1.0"
edition = "2021"
publish = false

[dependencies]
serde = "1"
serde_bytes = "0.11"
