[package]
name = "libcraft"
version = "0.1.0"
edition = "2021"
publish = false

[dependencies]
regex = "=1.13.1"
serde = { version = "=1.0.229", features = ["derive"] }
serde_yaml = "=0.9.34"
serde_json = "=1.0.154"
once_cell = "=1.21.4"
warp = { version = "=0.4.3", features = ["server", "websocket"] }
tokio = { version = "=1.54.1", features = ["full"] }
futures = "=0.3.34"
libc = "=0.2.191"
