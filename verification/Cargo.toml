[package]
name = "building_nav"
version = "0.1.0"
edition = "2021"
publish = false

[dependencies]
rand = "0.8"
bevy = { version = "0.8", default-features = false, features = ["bevy_asset", "bevy_scene", "bevy_winit", "render", "png", "jpeg", "x11"] }
bevy_rapier3d = "0.16"
bevy_turborand = "0.3"
crossbeam-channel = "0.5"
lazy_static = "1.4"
parking_lot = "0.12"
