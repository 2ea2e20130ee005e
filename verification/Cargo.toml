[package]
name = "clipsub"
version = "0.1.0"
edition = "2021"
publish = false

[dependencies]
serde_json = "*"
rsubs-lib = "*"
uuid = { version = "*", features = ["v4"] }
