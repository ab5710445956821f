[package]
name = "trim_dead_area"
version = "0.1.0"
edition = "2021"
publish = false

[dependencies]
anyhow = "1"
clap = { version = "4", default-features = false, features = ["std", "derive", "help", "usage", "error-context"] }
eframe = { version = "0.31", default-features = false, features = ["default_fonts", "glow", "x11"] }
ffmpeg-next = { version = "7", default-features = false, features = ["codec", "format", "software-scaling"] }
image = { version = "0.25", default-features = false, features = ["png"] }
rfd = { version = "0.15", default-features = false, features = ["xdg-portal", "tokio"] }
tracing = "0.1"
tracing-subscriber = { version = "0.3", features = ["env-filter"] }
