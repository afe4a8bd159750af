[package]
name = "gitshrub"
version = "0.1.0"
edition = "2021"
publish = false

[dependencies]
dirs = "*"
eframe = { version = "*", default-features = false, features = ["default_fonts", "glow", "x11"] }
egui = "*"
serde = { version = "*", features = ["derive"] }
serde_json = "*"
