[package]
name = "streamwatch"
version = "0.1.0"
edition = "2021"
publish = false

[dependencies]
chrono = "=0.4.45"
serde_json = { version = "=1.0.151", features = ["raw_value"] }
uuid = { version = "=1.27.0", features = ["v4"] }
tokio = { version = "=1.53.2", features = ["rt-multi-thread", "macros", "fs", "io-util", "time", "sync"] }
async-compression = { version = "=0.4.50", features = ["tokio", "zstd"] }
