[package]
name = "isolated-layer"
version = "0.1.0"
edition = "2021"
publish = false

[dependencies]
bytemuck = { version = "1", features = ["derive"] }
log = "0.4"
rustc-hash = "2"
thiserror = "2"
wgpu = { version = "*", default-features = false }
