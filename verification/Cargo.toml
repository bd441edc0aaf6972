[package]
name = "image_manipulation"
version = "0.1.0"
edition = "2021"
publish = false

[dependencies]
anyhow = "1"
bytemuck = "1"
ffmpeg-next = "7"
futures-intrusive = "0.5"
image = { version = "0.25", default-features = false, features = ["png", "jpeg", "webp"] }
pollster = "0.4"
rand = "0.8"
rayon = "1"
wgpu = "24"
