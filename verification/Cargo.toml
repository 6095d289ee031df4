[package]
name = "grid_geometry"
version = "0.1.0"
edition = "2021"
publish = false

[dependencies]
bevy = { version = "=0.10.1", default-features = false, features = ["bevy_asset", "bevy_core_pipeline", "bevy_render", "bevy_sprite", "bevy_text", "bevy_ui", "bevy_winit", "png", "x11"] }
bevy_ecs_ldtk = "=0.7.0"
bevy_rapier2d = "=0.21.0"
