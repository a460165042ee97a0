[package]
name = "algorithm_visualizer"
version = "0.1.0"
edition = "2021"
publish = false

[dependencies]
fastrand = "=2.5.0"
eframe = { version = "=0.33.3", default-features = false, features = ["glow", "default_fonts", "x11"] }
egui_extras = { version = "=0.33.3", default-features = false }
catppuccin-egui = { version = "=5.7.0", default-features = false, features = ["egui33"] }
