[package]
name = "kayak_ui"
version = "0.1.0"
edition = "2021"
publish = false

[dependencies]
bevy = { version = "0.12", default-features = false }
dashmap = "5.4"
log = "0.4"
morphorm = "0.3"
