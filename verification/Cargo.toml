[package]
name = "psicose"
version = "0.3.0"
edition = "2021"
publish = false

[dependencies]
chacha20poly1305 = { version = "0.10", default-features = false }
embedded-io = "0.6"
