[package]
name = "auto_vat"
version = "0.1.0"
edition = "2021"
publish = false

[dependencies]
arboard = "*"
eframe = { version = "*", default-features = false, features = ["glow", "x11", "default_fonts"] }
