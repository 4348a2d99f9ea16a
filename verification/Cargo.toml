[package]
name = "catenary_gen"
version = "0.1.0"
edition = "2021"
publish = false

[dependencies]
anyhow = "=1.0.104"
rgb = "=0.8.53"
roots = "=0.0.8"
lodepng = "=3.12.2"
egui = "=0.24.1"
eframe = { version = "=0.24.1", default-features = false, features = ["glow", "x11"] }
