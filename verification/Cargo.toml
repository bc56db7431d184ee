[package]
name = "niri_toolbar"
version = "0.1.0"
edition = "2021"
publish = false

[dependencies]
freedesktop-desktop-entry = "*"
freedesktop-icons = "*"
icon = "*"
niri-ipc = "*"
image = "*"
dirs = "*"
log = "*"
env_logger = "*"

[dev-dependencies]
serde_json = "*"
