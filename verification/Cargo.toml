[package]
name = "forza-painter"
version = "0.1.0"
edition = "2021"
publish = false

[dependencies]
bytemuck = { version = "=1.25.2", features = ["derive"] }
egui = "=0.28.1"
image = { version = "=0.25.10", default-features = false, features = ["png", "jpeg", "bmp"] }
pollster = "=0.3.0"
serde_json = "=1.0.154"
sysinfo = { version = "=0.31.4", default-features = false, features = ["system"] }
wgpu = { version = "=22.1.0", default-features = false, features = ["wgsl"] }
windows = { version = "=0.57.0", features = ["Win32_Foundation", "Win32_System_Diagnostics_Debug", "Win32_System_Memory", "Win32_System_ProcessStatus", "Win32_System_Threading"] }
