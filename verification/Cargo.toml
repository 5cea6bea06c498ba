[package]
name = "mud_sculpt"
version = "0.1.0"
edition = "2021"
publish = false

[dependencies]
fast-surface-nets = "=0.2.1"
glam = "=0.29.3"
bevy = { version = "=0.15.3", default-features = false, features = ["bevy_asset", "bevy_color", "bevy_core_pipeline", "bevy_pbr", "bevy_render", "bevy_window", "bevy_winit", "x11"] }
bevy_egui = { version = "=0.31.1", default-features = false, features = ["render", "default_fonts"] }
# Held back: the next line of this build helper brings a second TOML parser.
proc-macro-crate = "=3.3.0"
