[package]
name = "l1x_sdk"
version = "0.1.0"
edition = "2021"
publish = false

[dependencies]
borsh = "0.10"
hex = "0.4"
serde = { version = "1", features = ["derive"] }
serde_json = "1"
uint = "0.9"
