[package]
name = "mindmap"
version = "0.1.0"
edition = "2021"
publish = false

[dependencies]
quick-xml = "0.37"
egui = "0.31"
eframe = { version = "0.31", default-features = false, features = ["default_fonts", "glow", "x11"] }
log = "0.4"
env_logger = { version = "0.11", default-features = false }
anyhow = "1"
rfd = { version = "0.15", default-features = false, features = ["xdg-portal", "tokio"] }
resvg = { version = "0.45", default-features = false, features = ["text"] }
