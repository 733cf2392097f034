[package]
name = "skkserv_compound"
version = "0.1.0"
edition = "2021"
publish = false

[dependencies]
encoding_rs = "0.8"
tokio = { version = "1", features = ["rt-multi-thread", "macros", "net", "io-util", "time", "sync", "signal"] }
clap = { version = "4", features = ["derive"] }
env_logger = "0.11"
log = "0.4"
notify = "8"
anyhow = "1"
thiserror = "2"
tracing = "0.1"

[dev-dependencies]
tempfile = "3"
