[package]
name = "conquest_tiles"
version = "0.1.0"
edition = "2021"
publish = false

[dependencies]
anyhow = "1"
bevy = { version = "0.5", default-features = false, features = ["render"] }
ron = "0.6"
serde = { version = "1", features = ["derive"] }
