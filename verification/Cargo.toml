[package]
name = "biogrid"
version = "0.1.0"
edition = "2021"
publish = false

[dependencies]
rand = "0.8"
noise = "0.8"
bevy = { version = "0.13", default-features = false }
