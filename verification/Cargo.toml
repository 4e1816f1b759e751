[package]
name = "hyperion"
version = "0.1.0"
edition = "2021"
publish = false

[dependencies]
sled = "0.34"
chrono = { version = "0.4", default-features = false, features = ["clock", "std"] }
uuid = { version = "1", features = ["v4"] }
tokio = { version = "1", features = ["rt", "rt-multi-thread", "sync", "macros", "time"] }
clap = { version = "4", features = ["derive"] }
anyhow = "1"
