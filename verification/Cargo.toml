[package]
name = "rust_shader_viewer"
version = "0.1.0"
edition = "2021"
publish = false

[dependencies]
anyhow = "=1.0.104"
bytemuck = { version = "=1.25.2", features = ["derive"] }
cgmath = "=0.18.0"
env_logger = { version = "=0.11.11", default-features = false }
image = { version = "=0.24.9", default-features = false, features = ["hdr", "jpeg", "png"] }
log = "=0.4.34"
pollster = "=0.3.0"
thiserror = "=1.0.69"
tobj = { version = "=4.0.5", features = ["async"] }
wgpu = { version = "=0.19.4", default-features = false, features = ["glsl", "naga-ir", "wgsl"] }
