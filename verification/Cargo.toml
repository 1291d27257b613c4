[package]
name = "union_find_rust"
version = "0.1.0"
edition = "2021"
publish = false

[dependencies]
eframe = { version = "=0.36.2", default-features = false, features = ["default_fonts", "glow", "x11"] }
egui = "=0.36.2"
egui-file-dialog = { version = "=0.15.0", default-features = false }
ringbuf = "=0.6.0"
strum = "=0.28.0"
strum_macros = "=0.28.0"
