[package]
name = "vigenere"
version = "0.1.0"
edition = "2021"
publish = false

[dependencies]
nix = { version = "=0.31.3", features = ["net"] }

[dev-dependencies]
serde_json = { version = "=1.0.151", features = ["preserve_order"] }
