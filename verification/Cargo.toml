[package]
name = "ai_tracker"
version = "0.1.0"
edition = "2021"
publish = false

[dependencies]
nalgebra = "=0.32.6"
rand = "=0.8.8"
rayon = "=1.12.0"
log = "=0.4.35"
env_logger = "=0.10.2"
eframe = { version = "0.24", default-features = false, features = ["glow", "default_fonts", "x11"] }
