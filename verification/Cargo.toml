[package]
name = "meshviewer"
version = "0.1.0"
edition = "2021"
publish = false

[dependencies]
bevy = { version = "=0.18.1", default-features = false }
bevy_egui = { version = "=0.39.1", default-features = false }
directories = "=6.0.0"
objc = "=0.2.7"
serde = { version = "=1.0.229", features = ["derive"] }
toml = "=0.9.12"
