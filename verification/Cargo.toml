[package]
name = "graph"
version = "0.1.0"
edition = "2021"
publish = false

[dependencies]
anyhow = "1"
bytemuck = { version = "1", features = ["derive"] }
glam = "0.24"
mlua = { version = "0.9", features = ["lua54", "vendored"] }
pollster = "0.3"
serde = { version = "1", features = ["derive"] }
serde_yaml = "0.9"
uuid = { version = "1", features = ["v4", "serde"] }
wgpu = "0.16"
