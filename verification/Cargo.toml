[package]
name = "pngbend"
version = "0.1.0"
edition = "2021"
publish = false

[dependencies]
wide = "*"
rayon = "1"
egui = { version = "*", default-features = false }
eframe = { version = "*", default-features = false, features = ["glow", "default_fonts", "x11"] }
rfd = { version = "*", default-features = false, features = ["xdg-portal", "tokio"] }
