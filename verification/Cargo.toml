[package]
name = "arkana"
version = "0.1.0"
edition = "2021"
publish = false

[dependencies]
alsa = "0.9"
gilrs = "0.11"
image = { version = "0.25", default-features = false, features = ["png", "jpeg"] }
libc = "0.2"
serde = { version = "1", features = ["derive"] }
toml = "0.8"
