[package]
name = "minimap_tracker"
version = "0.1.0"
edition = "2021"
publish = false

[dependencies]
opencv = { version = "*", default-features = false, features = ["imgproc", "imgcodecs", "highgui"] }
winapi = { version = "0.3", features = ["winuser", "wingdi", "windef", "minwindef"] }
