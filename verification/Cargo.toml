[package]
name = "keyval"
version = "0.1.0"
edition = "2021"
publish = false

[dependencies]
memchr = "*"
tokio = { version = "*", features = ["full"] }
axum = "*"
prometheus = "*"
once_cell = "*"
libc = "*"
