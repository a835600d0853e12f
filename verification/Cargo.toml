[package]
name = "sgd_layout"
version = "0.1.0"
edition = "2021"
publish = false

[dependencies]
rand = "0.9"
anyhow = "*"
bytemuck = "*"
chrono = "*"
env_logger = "*"
pollster = "*"
sprs = "*"
wgpu = "*"
