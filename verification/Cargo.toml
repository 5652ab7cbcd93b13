[package]
name = "carbon_rs"
version = "0.1.0"
edition = "2021"
publish = false

[dependencies]
smallvec = "1"
glam = "0.29"
bevy_ecs = { version = "0.15", default-features = false }
bevy_app = { version = "0.15", default-features = false }
