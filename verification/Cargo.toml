[package]
name = "carrier_sim"
version = "0.1.0"
edition = "2021"
publish = false

[dependencies]
bevy_turborand = "=0.13.0"
serde = { version = "=1.0.229", features = ["derive"] }
serde_json = "=1.0.151"
