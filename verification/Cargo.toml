[package]
name = "kvstore"
version = "0.1.0"
edition = "2021"
publish = false

[dependencies]
bytes = "1"
mio = { version = "1", features = ["os-poll", "net"] }
