[package]
name = "rs_gigatoken"
version = "0.1.0"
edition = "2021"
publish = false

[dependencies]
aho-corasick = "1"
base64 = "0.22"
eyre = "0.6"
serde = { version = "1", features = ["derive"] }
sonic-rs = "*"
