[package]
name = "math_manipulator"
version = "0.1.0"
edition = "2021"
publish = false

[dependencies]
eframe = { version = "0.37.0", default-features = false, features = ["default_fonts", "glow", "x11"] }
egui = "0.37.0"
env_logger = "0.11.11"
