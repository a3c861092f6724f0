[package]
name = "parallax"
version = "0.1.0"
edition = "2021"
publish = false

[dependencies]
png = "0.18"
clap = { version = "4", default-features = false, features = ["std", "derive", "help", "usage", "error-context"] }
bevy = { version = "0.17", default-features = false, features = ["std", "bevy_asset", "bevy_core_pipeline", "bevy_pbr", "bevy_render", "bevy_winit", "shader_format_glsl", "x11"] }
