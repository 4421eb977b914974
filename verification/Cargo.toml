[package]
name = "simplan"
version = "0.1.0"
edition = "2021"
publish = false

[dependencies]
image = { version = "0.25", default-features = false, features = ["png", "jpeg"] }
png = "0.18"
ureq = "3"
bevy = { version = "0.15", default-features = false, features = ["bevy_asset", "bevy_core_pipeline", "bevy_pbr", "bevy_render", "bevy_window", "bevy_color"] }
avian3d = { version = "0.2", default-features = false, features = ["3d", "f32", "parry-f32", "default-collider"] }
