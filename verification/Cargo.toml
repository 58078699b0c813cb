[package]
name = "websocket_server"
version = "0.1.0"
edition = "2021"
publish = false

[dependencies]
http-muncher = "*"
mio = { version = "*", features = ["os-poll", "net"] }
rustc-serialize = "*"
sha1 = "*"
