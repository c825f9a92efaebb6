[package]
name = "dee_bugee"
version = "0.1.0"
edition = "2021"
publish = false

[dependencies]
chrono = { version = "0.4", default-features = false, features = ["clock", "std"] }
crossbeam-channel = "0.5"
eframe = { version = "0.35", default-features = false, features = ["default_fonts", "glow", "persistence", "x11"] }
egui_extras = { version = "0.35", default-features = false }
reqwest = { version = "0.12", default-features = false, features = ["blocking", "json"] }
rfd = { version = "0.17", default-features = false, features = ["xdg-portal"] }
roaring = "0.11"
semver = "1"
serde = { version = "1", features = ["derive"] }
serde_json = "1"
sha2 = "0.10"
toml = "0.8"
tracing = "0.1"
tracing-subscriber = { version = "0.3", default-features = false, features = ["registry", "std"] }
uuid = { version = "1", features = ["v4"] }
