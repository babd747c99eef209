[package]
name = "weftui"
version = "0.1.0"
edition = "2021"
publish = false

[dependencies]
btreemultimap = "0.1"
egui = "0.21"
egui-wgpu = "0.21"
egui-winit = "0.21"
multimap = "0.8"
pollster = "0.3"
serde = { version = "1", features = ["derive"] }
serde_yaml = "0.9"
wgpu = "0.15"
