[package]
name = "cloudplay"
version = "0.1.0"
edition = "2021"
publish = false

[dependencies]
serde_json = "1"
tungstenite = "0.21"
enigo = "0.2"
captrs = "0.3"
device_query = "2"
