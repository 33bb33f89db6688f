[package]
name = "darknet_inference"
version = "0.1.0"
edition = "2021"
publish = false

[dependencies]
anyhow = "1"
darknet = "*"
postcard = { version = "1", features = ["use-std"] }
serde = { version = "1", features = ["derive"] }
