[package]
name = "keru_text"
version = "0.1.0"
edition = "2021"
publish = false

[dependencies]
offset-allocator = "*"
wgpu = "24"
bytemuck = { version = "1", features = ["derive"] }
euclid = "*"
accesskit = "*"
