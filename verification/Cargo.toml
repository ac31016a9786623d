[package]
name = "multi_account"
version = "0.1.0"
edition = "2021"
publish = false

[dependencies]
frame-system = "=38.0.0"
polkadot-sdk-frame = { version = "=0.7.0", features = ["experimental"] }
