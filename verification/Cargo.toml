[package]
name = "pumpkin_world"
version = "0.1.0"
edition = "2021"
publish = false

[dependencies]
dashmap = "6"
log = "0.4"
rayon = "1"
tokio = { version = "1", features = ["full"] }
tokio-util = "0.7"
