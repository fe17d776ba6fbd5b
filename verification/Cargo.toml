[package]
name = "server"
version = "0.1.0"
edition = "2021"
publish = false

[dependencies]
regex = "=1.13.1"
bevy = { version = "=0.10.1", default-features = false }
bevy-nest = "=0.1.1"
