[package]
name = "clawdengine"
version = "0.1.0"
edition = "2021"
publish = false

[dependencies]
log = "=0.4.35"
chrono = "=0.4.45"
serde = { version = "=1.0.229", features = ["derive"] }
ron = "=0.8.1"
glam = { version = "0.31", features = ["serde"] }
anyhow = "=1.0.104"
env_logger = "=0.11.11"
image = { version = "=0.25.10", default-features = false, features = ["png", "jpeg"] }
gltf = { version = "=1.4.1", default-features = false, features = ["import", "utils", "names"] }
