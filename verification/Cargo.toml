[package]
name = "diskscour"
version = "0.5.0"
edition = "2021"
publish = false

[dependencies]
core-foundation-sys = "0.8"
eframe = { version = "0.32", default-features = false, features = ["default_fonts", "glow", "x11"] }
jwalk = "0.8"
serde_json = "1"
trash = "5"
