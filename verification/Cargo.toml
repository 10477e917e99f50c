[package]
name = "qs_client"
version = "0.1.0"
edition = "2021"
publish = false

[dependencies]
stretch = "0.3.2"
winit = "*"
wgpu = "*"
futures = "0.3"
cgmath = "*"
rusttype = "*"
itertools = "*"
tracing = "0.1"
