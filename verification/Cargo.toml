[package]
name = "bevy_vista"
version = "0.1.0"
edition = "2021"
publish = false

[dependencies]
base64 = "0.22"
ron = "0.11"
serde = { version = "1", features = ["derive"] }
inventory = "0.3"
bevy = { version = "0.17", default-features = false, features = ["std", "bevy_ui", "bevy_ui_render", "bevy_picking", "bevy_ui_picking_backend", "bevy_state", "bevy_window", "bevy_text"] }
