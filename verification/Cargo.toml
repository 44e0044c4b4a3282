[package]
name = "system_id"
version = "0.1.0"
edition = "2021"
publish = false

[dependencies]
blake3 = "*"
sysinfo = "*"
anyhow = "*"
clap = { version = "*", features = ["derive"] }
tracing = "*"
tracing-subscriber = "*"

[dev-dependencies]
rand = "*"
