[package]
name = "worldsync"
version = "0.1.0"
edition = "2021"
publish = false

[dependencies]
bincode = "=2.0.0-rc.2"
rand = "0.8"
rand_distr = "0.4"
clap = { version = "4", features = ["derive"] }
bevy = { version = "0.8", default-features = false, features = ["bevy_asset", "bevy_scene", "bevy_winit", "render", "png", "x11"] }
iyes_loopless = "0.8"
