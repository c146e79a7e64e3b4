[package]
name = "acs_seed_finder"
version = "0.1.0"
edition = "2021"
publish = false

[dependencies]
aes = "0.8"
base64 = "0.22"
pbkdf2 = "0.12"
sha1 = "0.10"
quick-xml = "0.30"
flate2 = "1"
bincode = "1.3"
serde = { version = "1", features = ["derive"] }
rayon = "1"
pollster = "0.3"
bytemuck = "1"
wgpu = "30"
eframe = { version = "0.37", default-features = false, features = ["default_fonts", "glow", "x11"] }
