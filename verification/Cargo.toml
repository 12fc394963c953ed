[package]
name = "gpx_tile_generator"
version = "0.1.0"
edition = "2021"
publish = false

[dependencies]
bytemuck = { version = "=1.25.2", features = ["derive"] }
half = "=2.7.1"
png = "=0.17.16"
pollster = "0.4"
rustc-hash = "=2.1.3"
tiny-skia = { version = "=0.11.4", default-features = false, features = ["std", "simd"] }
wgpu = "29"
