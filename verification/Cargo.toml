[package]
name = "heatmapping"
version = "0.1.0"
edition = "2021"
publish = false

[dependencies]
bytemuck = { version = "=1.25.2", features = ["derive"] }
csv = "=1.4.0"
pollster = "=1.0.1"
tracing = "=0.1.44"
tracing-subscriber = "=0.3.23"
wgpu = "=28.0.0"
winit = "=0.30.13"
