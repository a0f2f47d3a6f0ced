[package]
name = "mio_core"
version = "0.1.0"
edition = "2021"
publish = false

[dependencies]
anyhow = "=1.0.104"
arboard = "3"
directories-next = "=2.0.0"
image = { version = "=0.24.9", default-features = false, features = ["png", "jpeg"] }
leptess = "=0.14.0"
log = "=0.4.34"
serde = { version = "=1.0.229", features = ["derive"] }
serde_json = "=1.0.154"
tempfile = "=3.27.0"
