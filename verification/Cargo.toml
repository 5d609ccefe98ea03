[package]
name = "chatrelay"
version = "0.1.0"
edition = "2021"
publish = false

[dependencies]
rand = "0.8"
websocket = { version = "0.26", default-features = false, features = ["sync"] }
hyper = "0.10"
