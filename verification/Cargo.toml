[package]
name = "one-dimension-up"
version = "0.1.0"
edition = "2021"
publish = false

[dependencies]
bevy = { version = "0.18", default-features = false, features = ["bevy_render", "bevy_core_pipeline", "bevy_window", "png"] }
bevy_egui = { version = "0.39", default-features = false, features = ["render", "default_fonts"] }
