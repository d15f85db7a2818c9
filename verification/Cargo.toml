[package]
name = "liveplaya"
version = "0.1.0"
edition = "2021"
publish = false

[dependencies]
tokio = { version = "=1.53.2", features = ["sync", "time", "net", "io-util", "fs", "rt-multi-thread", "macros"] }
tokio-util = "=0.7.19"
tokio-serial = "=5.5.0"
serde = { version = "=1.0.229", features = ["derive"] }
serde_json = "=1.0.151"
geojson = "=1.0.0"
