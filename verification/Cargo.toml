[package]
name = "integral_calculator"
version = "0.1.0"
edition = "2021"
publish = false

[dependencies]
eframe = { version = "0.21", default-features = false, features = ["default_fonts", "glow"] }
egui = "0.21"
crossbeam-channel = "0.5"
tracing-subscriber = "0.3"
