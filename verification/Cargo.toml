[package]
name = "formal_languages"
version = "0.1.0"
edition = "2021"
publish = false

[dependencies]
eframe = { version = "0.21", default-features = false, features = ["glow", "default_fonts"] }
egui = "0.21"
serde = { version = "1", features = ["derive"] }
serde_json = "1"
