[package]
name = "http_server"
version = "0.1.0"
edition = "2021"
publish = false

[dependencies]
anyhow = "1"
crossbeam = "0.8"
env_logger = "0.11"
log = "0.4"
mio = { version = "1", features = ["net", "os-poll"] }
thiserror = "2"
