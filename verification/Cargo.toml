[package]
name = "terrain_raymarch"
version = "0.1.0"
edition = "2021"
publish = false

[dependencies]
bevy = { version = "=0.18.1", default-features = false, features = ["std", "bevy_asset", "bevy_color", "bevy_core_pipeline", "bevy_anti_alias", "bevy_pbr", "bevy_render", "bevy_text", "bevy_ui", "bevy_ui_render", "bevy_window", "bevy_camera", "bevy_light", "bevy_mesh", "bevy_shader", "bevy_image", "default_font", "multi_threaded"] }
bytemuck = { version = "=1.25.2", features = ["derive"] }
noise = "=0.9.0"
rayon = "=1.12.0"
