[package]
name = "voxel_svo"
version = "0.1.0"
edition = "2021"
publish = false

[dependencies]
glam = "*"
noise = "*"
gltf = "*"
rayon = "*"
serde = { version = "1", features = ["derive"] }
serde_json = "1"
bytemuck = { version = "1", features = ["derive"] }
