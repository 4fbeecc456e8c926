[package]
name = "tailgate"
version = "0.1.0"
edition = "2021"
publish = false

[dependencies]
crc = "1"
notify = "4"
websocket = { version = "0.27", default-features = false, features = ["sync"] }
