[package]
name = "path_tracer"
version = "0.1.0"
edition = "2021"
publish = false

[dependencies]
bytemuck = { version = "=1.25.2", features = ["derive", "extern_crate_alloc"] }
egui = { version = "=0.37.0", default-features = false }
futures-channel = "=0.3.34"
gltf = "=1.4.1"
image = { version = "=0.25.10", default-features = false, features = ["png", "jpeg"] }
indicatif = "=0.17.11"
keyframe = "=1.1.1"
nalgebra = "=0.33.3"
pollster = "=0.3.0"
rayon = "=1.12.0"
serde = { version = "=1.0.229", features = ["derive"] }
wgpu = "=23.0.1"
