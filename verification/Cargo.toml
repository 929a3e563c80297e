[package]
name = "orf"
version = "0.1.0"
edition = "2021"
publish = false

[dependencies]
sha1 = "0.10"
flate2 = "1"
chrono = "0.4"
similar = "2"
clap = { version = "4", features = ["derive"] }
colored = "2"
walkdir = "2"
indicatif = "0.17"
anyhow = "1"
serde = { version = "1", features = ["derive"] }
bincode = { version = "2", features = ["serde"] }
url = "2"
tokio = { version = "1", features = ["rt-multi-thread", "macros", "fs", "io-util"] }
