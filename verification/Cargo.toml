[package]
name = "voxels"
version = "0.1.0"
edition = "2021"
publish = false

[dependencies]
bytemuck = { version = "1", features = ["derive"] }
chrono = "0.4"
clap = { version = "4", features = ["derive"] }
env_logger = "0.11"
futures = "0.3"
glam = { version = "0.30", features = ["bytemuck"] }
log = "0.4"
serde = { version = "1", features = ["derive"] }
serde_json = "1"
spirv-std = "*"
toml = "0.8"
wgpu = { version = "25", features = ["spirv"] }
winit = "0.30"
