[package]
name = "iced_waveform"
version = "0.1.0"
edition = "2021"
publish = false

[dependencies]
iced = { version = "0.14", features = ["wgpu", "advanced"] }
iced_wgpu = "0.14"
palette = "0.7"
bytemuck = "1"
thiserror = "2"
