[package]
name = "turiplogic"
version = "0.1.0"
edition = "2021"
publish = false

[dependencies]
typed-generational-arena = "=0.2.9"
serde = { version = "=1.0.229", features = ["derive"] }
rmp-serde = "=1.3.1"
strum = { version = "=0.28.0", features = ["derive"] }
glam = { version = "=0.34.2", features = ["serde"] }
bytemuck = { version = "=1.25.2", features = ["derive"] }
clap = { version = "=4.6.7", features = ["derive"] }
env_logger = "=0.11.11"
pollster = "=1.0.1"
wgpu = "=29.0.4"
winit = "=0.30.13"
imgui = "=0.12.0"
imgui-wgpu = "=0.28.0"
imgui-winit-support = "=0.13.0"
rfd = "=0.17.2"
