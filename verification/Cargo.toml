[package]
name = "raknet"
version = "0.1.0"
edition = "2021"
publish = false

[dependencies]
bevy = { version = "0.13", default-features = false }
byteorder = "1"
bytes = "1"
log = "0.4"
rand = "0.8"
