[package]
name = "voxel_mip"
version = "0.1.0"
edition = "2021"
publish = false

[dependencies]
anyhow = "=1.0.104"
bytemuck = { version = "=1.25.2", features = ["derive", "extern_crate_alloc"] }
clap = { version = "=4.6.7", features = ["derive"] }
font8x8 = "=0.3.1"
glam = "=0.30.10"
objc2 = "=0.6.5"
objc2-foundation = { version = "=0.3.2", features = ["NSError", "NSString", "NSURL"] }
objc2-metal = { version = "=0.3.2", features = ["MTLCaptureManager", "MTLDevice"] }
pollster = "=0.4.0"
thiserror = "=2.0.21"
tracing = "=0.1.44"
tracing-subscriber = { version = "=0.3.23", features = ["env-filter"] }
wgpu = { version = "=29.0.4", default-features = false, features = ["std", "parking_lot", "wgsl", "vulkan", "metal"] }
winit = "=0.30.13"
