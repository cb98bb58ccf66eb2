[package]
name = "holdem"
version = "0.1.0"
edition = "2021"
publish = false

[dependencies]
colored = "2"
combinations = "*"
getset = "0.1"
queue = "*"
rand = "0.8"
rocket = "0.5"
serde = { version = "1", features = ["derive"] }
serde_json = "1"
tokio = { version = "1", features = ["net", "rt-multi-thread", "macros"] }
tokio-tungstenite = "0.21"
