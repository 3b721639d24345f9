[package]
name = "gruznet"
version = "0.3.1"
edition = "2021"
publish = false

[dependencies]
eframe = { version = "=0.24.1", default-features = false, features = ["default_fonts", "glow"] }
image = "=0.24.9"
native-tls = "=0.2.18"
