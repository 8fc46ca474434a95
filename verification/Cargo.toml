[package]
name = "butler"
version = "0.1.0"
edition = "2021"
publish = false

[dependencies]
slab = "0.4"
mio = { version = "1", features = ["os-poll", "net"] }
libc = "0.2"
