[package]
name = "groot"
version = "0.2.0"
edition = "2021"
publish = false

[dependencies]
glam = "0.27"
hecs = "0.10"
bytemuck = { version = "1.14", features = ["derive"] }
pollster = "0.3"
ron = "0.8"
serde = { version = "1", features = ["derive"] }
log = "0.4"
env_logger = "0.11"
image = { version = "0.25", default-features = false, features = ["png"] }
rust-embed = { version = "8.4", features = ["debug-embed"] }
