[package]
name = "optimizer_core"
version = "0.1.0"
edition = "2021"
publish = false

[dependencies]
serde = { version = "=1.0.229", features = ["derive"] }
serde_json = "=1.0.154"
sysinfo = "=0.40.1"
nvml-wrapper = "=0.13.0"
windows = { version = "=0.62.2", features = ["Win32_Graphics_Dxgi"] }
