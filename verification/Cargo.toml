[package]
name = "audio_core"
version = "0.1.0"
edition = "2021"
publish = false

[dependencies]
log = "*"
spin_sleep = "*"
ringbuf = "*"
fundsp = "*"
