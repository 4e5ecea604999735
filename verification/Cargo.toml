[package]
name = "clog-core"
version = "1.0.0"
edition = "2021"
publish = false

[dependencies]
regex = "1"
blake3 = "1"
bincode = "1"
serde = { version = "1", features = ["derive"] }
serde_json = "1"
thiserror = "2"
rayon = "1"
tracing = "0.1"
tracing-subscriber = { version = "0.3", features = ["env-filter", "fmt"] }
tracing-appender = "0.2"
tokio = { version = "1", features = ["rt", "time", "sync", "macros"] }
