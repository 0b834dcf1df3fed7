[package]
name = "bevy_stats"
version = "0.1.0"
edition = "2021"
publish = false

[dependencies]
bevy_platform = { version = "0.19", features = ["std"] }
bevy_ecs = "0.19"
bevy_app = "0.19"
bevy_math = "0.19"
log = "0.4"
proc-macro2 = "1"
quote = "1"
syn = "2"
