[package]
name = "bt_bencode"
version = "0.1.0"
edition = "2021"
publish = false

[dependencies]
itoa = "1"
serde = "1"
serde_bytes = "0.11"
