[package]
name = "casa1"
version = "0.1.0"
edition = "2021"
publish = false

[dependencies]
cpal = "0.15"
libc = "0.2"
roxmltree = "0.20"
serde = { version = "1", features = ["derive"] }
uuid = { version = "1", features = ["v4"] }

[dev-dependencies]
tempfile = "3"
