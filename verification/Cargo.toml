[package]
name = "scene_bootstrap"
version = "0.1.0"
edition = "2021"
publish = false

[dependencies]
bevy = { version = "=0.10.1", default-features = false, features = ["bevy_asset", "bevy_core_pipeline", "bevy_pbr", "bevy_render", "bevy_winit", "x11"] }
bevy_mod_component_mirror = "=0.9.0"
bevy_rapier3d = "=0.21.0"
