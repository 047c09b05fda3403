[package]
name = "dxf_trutops_cleaner"
version = "0.1.0"
edition = "2021"
publish = false

[dependencies]
chrono = { version = "0.4", default-features = false, features = ["clock"] }
eframe = { version = "*", default-features = false, features = ["default_fonts", "glow", "x11"] }
image = { version = "*", default-features = false, features = ["png"] }
rfd = { version = "*", default-features = false, features = ["xdg-portal", "tokio"] }
usvg = { version = "*", default-features = false }
