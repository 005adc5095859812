[package]
name = "img2stl"
version = "0.1.0"
edition = "2021"
publish = false

[dependencies]
image = { version = "0.24", default-features = false, features = ["png", "jpeg"] }
base64 = "0.13"
serde = { version = "1", features = ["derive"] }
serde_json = "1"
