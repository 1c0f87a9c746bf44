[package]
name = "lore"
version = "0.1.0"
edition = "2021"
publish = false

[dependencies]
async-trait = "0.1"
bytes = "1"
dashmap = "6"
fastcdc = "3"
futures = "0.3"
opentelemetry = { version = "0.31", default-features = false, features = ["metrics"] }
parking_lot = "0.12"
quinn = { version = "0.11", default-features = false, features = ["runtime-tokio"] }
socket2 = { version = "0.6", features = ["all"] }
tokio = { version = "1", features = ["fs", "io-util", "macros", "rt", "sync", "time"] }
tokio-util = { version = "0.7", features = ["rt"] }
toml = "0.9"
tonic = { version = "0.14", default-features = false }
tracing = "0.1"
uuid = "1"
