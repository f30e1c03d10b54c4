[package]
name = "audio-graph-bsd"
version = "0.4.1"
edition = "2021"
publish = false

[dependencies]
audio-core-bsd = "*"
rtrb = "0.3"
arc-swap = "1"
thiserror = "2"
serde = { version = "1", features = ["derive"] }

[dev-dependencies]
bincode = "1"
