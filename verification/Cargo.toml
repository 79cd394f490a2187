[package]
name = "dinosaur"
version = "0.1.0"
edition = "2021"
publish = false

[dependencies]
csv = "1"
serde_json = "1"
memchr = "2"
rayon = "1"
memmap2 = "0.9"
eframe = { version = "0.30", default-features = false, features = ["default_fonts", "glow", "x11"] }
egui = "0.30"
egui_extras = { version = "0.30", default-features = false, features = ["svg"] }
resvg = "0.45"
rfd = { version = "0.15", default-features = false, features = ["gtk3"] }
