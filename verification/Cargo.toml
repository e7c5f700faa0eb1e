[package]
name = "audioplayer"
version = "0.1.0"
edition = "2021"
publish = false

[dependencies]
anyhow = "1"
cpal = "0.15"
egui = "0.28"
symphonia = { version = "0.5", features = ["all"] }
