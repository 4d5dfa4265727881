[package]
name = "aevum"
version = "0.1.0"
edition = "2021"
publish = false

[dependencies]
anyhow = "1"
bincode = "1"
clap = { version = "4", features = ["derive"] }
colored = "*"
parking_lot = "*"
serde = { version = "1", features = ["derive"] }
tokio = { version = "1", features = ["macros", "rt-multi-thread", "time"] }
tracing = "*"
tracing-subscriber = "*"
uuid = { version = "1", features = ["v4", "serde"] }
zstd = "*"

[dev-dependencies]
tempfile = "*"
