[package]
name = "cljrs"
version = "0.1.0"
edition = "2021"
publish = false

[dependencies]
archery = "=1.2.3"
rpds = "=1.2.1"
tracing = "=0.1.44"
tracing-subscriber = { version = "=0.3.23", features = ["env-filter"] }
crossbeam-channel = "=0.5.17"
bevy = { version = "=0.10.1", default-features = false, features = ["bevy_core_pipeline", "bevy_render", "bevy_winit", "x11"] }
bevy-tokio-tasks = "=0.10.2"
