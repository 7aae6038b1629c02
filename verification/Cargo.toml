[package]
name = "lifeview"
version = "0.1.0"
edition = "2021"
publish = false

[dependencies]
bevy = { version = "=0.17.3", default-features = false, features = ["bevy_render", "bevy_core_pipeline", "bevy_sprite_render", "bevy_winit"] }
bevy_egui = { version = "=0.37.1", default-features = false, features = ["render"] }
bytemuck = "=1.25.2"
rand = "=0.9.5"
