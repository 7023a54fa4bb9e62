[package]
name = "logview"
version = "0.1.9"
edition = "2021"
publish = false

[dependencies]
anyhow = "1"
eframe = { version = "0.31", default-features = false, features = ["default_fonts", "glow", "wgpu", "x11", "wayland"] }
egui = "0.31"
encoding_rs = "0.8"
memchr = "2"
memmap2 = "0.9"
regex = "1"
rfd = "0.15"
