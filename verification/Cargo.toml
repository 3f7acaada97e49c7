[package]
name = "mock_pop"
version = "0.1.0"
edition = "2021"
publish = false

[dependencies]
bytes = "1"
tokio = { version = "1", features = ["net", "rt-multi-thread", "macros", "io-util"] }
tokio-util = { version = "0.7", features = ["codec"] }
futures = "0.3"
log = "0.4"
env_logger = "*"
clap = { version = "4", features = ["derive"] }
