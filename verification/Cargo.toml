[package]
name = "tuner"
version = "0.1.0"
edition = "2021"
publish = false

[dependencies]
chrono = "0.4"
ffmpeg-next = "7"
fontdue = "0.9"
png = "0.18"
pollster = "0.4"
serde = { version = "1", features = ["derive"] }
serde_json = "1"
ureq = "2"
wgpu = { version = "25", default-features = false, features = ["wgsl", "vulkan"] }
winit = { version = "0.30", default-features = false, features = ["x11", "rwh_06"] }
