[package]
name = "konserve"
version = "0.1.0"
edition = "2021"
publish = false

[dependencies]
tar = "*"
uuid = { version = "*", features = ["v4"] }
chrono = "*"
serde = { version = "*", features = ["derive"] }
serde_json = "*"
dirs = "*"
dotenv = "*"
walkdir = "*"
image = { version = "*", default-features = false, features = ["png"] }
eframe = { version = "*", default-features = false, features = ["glow", "x11", "default_fonts"] }
egui = "*"
rfd = { version = "*", default-features = false, features = ["xdg-portal", "async-std"] }
