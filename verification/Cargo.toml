[package]
name = "scenesync_parity"
version = "0.1.0"
edition = "2021"
publish = false

[dependencies]
godot = "0.4"
rapier3d = "=0.30.0"
