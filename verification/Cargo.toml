[package]
name = "fem_rs"
version = "0.1.0"
edition = "2021"
publish = false

[dependencies]
anyhow = "1"
nalgebra = "*"
nalgebra-sparse = "*"
plotters = { version = "0.3.7", default-features = false, features = ["svg_backend", "all_series", "all_elements"] }
egui = { version = "0.37.0", default-features = false, features = ["default_fonts"] }
eframe = { version = "0.37.0", default-features = false, features = ["default_fonts", "glow", "x11"] }
