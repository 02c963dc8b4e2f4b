[package]
name = "demo_chat"
version = "0.1.0"
edition = "2021"
publish = false

[dependencies]
renet_udp = "=0.0.2"
serde = { version = "=1.0.229", features = ["derive"] }
log = "=0.4.34"
bincode = "1"
