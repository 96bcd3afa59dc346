[package]
name = "firewood"
version = "0.1.0"
edition = "2021"
publish = false

[dependencies]
clap = { version = "=4.6.7", features = ["derive"] }
env_logger = "=0.11.11"
hex = "=0.4.3"
log = "=0.4.34"
metrics-exporter-prometheus = { version = "=0.16.2", default-features = false, features = ["http-listener"] }
metrics-util = "=0.19.1"
pretty-duration = "=0.1.1"
serde = { version = "=1.0.229", features = ["derive"] }
sha2 = "=0.10.9"
smallvec = { version = "=1.16.4", features = ["serde"] }
thiserror = "=1.0.69"
tikv-jemallocator = "=0.6.1"
tokio = { version = "=1.54.1", features = ["macros", "rt-multi-thread"] }
typed-builder = "=0.20.1"
