[package]
name = "haruki_sekai"
version = "0.1.0"
edition = "2021"
publish = false

[dependencies]
aes = "*"
base64 = "*"
cbc = { version = "*", features = ["alloc"] }
futures = "*"
hex = "*"
indexmap = { version = "*", features = ["serde"] }
notify = "*"
parking_lot = "*"
reqwest = { version = "*", default-features = false, features = ["rustls-tls", "json"] }
rmpv = "*"
serde = { version = "*", features = ["derive"] }
serde_json = "*"
serde_yaml = "*"
tokio = { version = "*", features = ["fs", "macros", "net", "rt-multi-thread", "signal", "sync", "time"] }
tokio-cron-scheduler = "*"
uuid = { version = "*", features = ["v4"] }
