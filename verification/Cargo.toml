[package]
name = "dg4"
version = "0.1.0"
edition = "2021"
publish = false

[dependencies]
glam = "*"
eframe = { version = "0.31", default-features = false, features = ["default_fonts", "glow", "x11"] }
