[package]
name = "raindeer"
version = "0.1.0"
edition = "2021"
publish = false

[dependencies]
bytemuck = "1"
cgmath = "0.18"
pollster = "0.3"
wgpu = "22"
winit = "0.30"
