[package]
name = "mmcompare"
version = "0.1.0"
edition = "2021"
publish = false

[dependencies]
image = { version = "0.25", default-features = false, features = ["png", "jpeg", "gif", "bmp", "webp"] }
jpeg-decoder = { version = "0.3", default-features = false }
nom-exif = "3"
log = "0.4"
env_logger = { version = "0.11", default-features = false }
eframe = { version = "0.35", default-features = false, features = ["glow", "x11", "default_fonts"] }
egui_extras = { version = "0.35", default-features = false }
