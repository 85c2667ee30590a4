[package]
name = "splattar"
version = "0.1.0"
edition = "2021"
publish = false

[dependencies]
anyhow = "=1.0.104"
ash = "=0.38.0"
bytemuck = { version = "=1.25.2", features = ["derive"] }
glam = "=0.34.2"
image = { version = "0.25", default-features = false, features = ["jpeg", "png"] }
log = "=0.4.35"
mp4 = "=0.14.0"
nalgebra = "=0.35.0"
pollster = "=1.0.1"
rayon = "=1.12.0"
softbuffer = "=0.4.8"
thiserror = "=2.0.21"
wgpu = "=30.0.1"
winit = "=0.30.13"
