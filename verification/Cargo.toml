[package]
name = "flight_globe"
version = "0.1.0"
edition = "2021"
publish = false

[dependencies]
bevy = { version = "0.10", default-features = false, features = ["bevy_asset", "bevy_core_pipeline", "bevy_pbr", "bevy_render", "bevy_winit", "png", "jpeg", "x11"] }
bevy_mod_paramap = "0.3"
serde = { version = "1", features = ["derive"] }
wasm-bindgen = "0.2"
