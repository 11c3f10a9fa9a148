[package]
name = "cyberpunk_utility"
version = "0.1.0"
edition = "2021"
publish = false

[dependencies]
toposort-scc = "0.5.4"
walkdir = "2"
clap = { version = "4", features = ["derive"] }
colored = "3"
log = "0.4"
simple_logger = "5"
simple-logging = "2"
serde = { version = "1", features = ["derive"] }
serde_json = "1"
open = "5"
rfd = { version = "0.15", default-features = false, features = ["xdg-portal", "tokio"] }
eframe = { version = "0.32", default-features = false, features = ["persistence", "glow", "default_fonts", "x11"] }
egui = "0.32"
egui_dnd = "0.13"
