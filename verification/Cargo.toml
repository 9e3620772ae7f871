[package]
name = "province_map"
version = "0.1.0"
edition = "2021"
publish = false

[dependencies]
image = { version = "=0.25.10", default-features = false, features = ["bmp"] }
bevy = { version = "=0.15.3", default-features = false, features = ["bevy_window"] }
bevy_prototype_lyon = "=0.13.0"
serde = { version = "=1.0.229", features = ["derive"] }
toml = "=0.8.23"
