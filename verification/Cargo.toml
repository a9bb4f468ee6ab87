[package]
name = "typstty"
version = "0.1.0"
edition = "2021"
publish = false

[dependencies]
typst-syntax = "0.12"
egui = { version = "0.27", default-features = false, features = ["default_fonts"] }
crossterm = "0.27"
