[package]
name = "bevy_bundlication"
version = "0.1.0"
edition = "2021"
publish = false

[dependencies]
bevy = { version = "0.12", default-features = false }
bevy_renet = "0.0.10"
bincode = "1.3"
postcard = { version = "1", features = ["use-std"] }
serde = { version = "1", features = ["derive"] }
