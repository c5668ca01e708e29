[package]
name = "parquet_viewer"
version = "0.1.0"
edition = "2021"
publish = false

[dependencies]
serde_json = "=1.0.154"
eframe = { version = "=0.31.1", default-features = false, features = ["glow", "x11", "default_fonts"] }
egui = { version = "=0.31.1", default-features = false, features = ["default_fonts"] }
egui_extras = { version = "=0.31.1", default-features = false }
image = { version = "=0.25.10", default-features = false, features = ["png"] }
arrow = { version = "=55.2.0", default-features = false }
parquet = { version = "=55.2.0", default-features = false, features = ["arrow", "snap", "brotli", "flate2", "lz4", "simdutf8"] }
