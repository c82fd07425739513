[package]
name = "lilapu_audio"
version = "0.1.0"
edition = "2021"
publish = false

[dependencies]
hound = "3.5"
base64 = "0.22"
parking_lot = "0.12"
serde = { version = "1", features = ["derive"] }
cpal = "0.15"
