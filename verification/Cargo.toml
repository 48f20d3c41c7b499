[package]
name = "ship_server"
version = "0.1.0"
edition = "2021"
publish = false

[dependencies]
base64 = "0.13"
sha = "1"
async-std = "1"
futures = "0.3"
futures-timer = "3"
serde = { version = "1", features = ["derive"] }
serde_json = "1"
rand = "0.8"
surf = { version = "2", default-features = false, features = ["h1-client"] }
rapier2d = "0.11"
generational-arena = "0.2"
