[package]
name = "port_scan_rs"
version = "0.1.0"
edition = "2021"
publish = false

[dependencies]
hex = "0.4"
unicode-width = "0.2"
anyhow = "1"
chrono = "0.4"
clap = { version = "4", features = ["derive"] }
colored = "2"
serde = { version = "1", features = ["derive"] }
serde_json = "1"
tokio = { version = "1", features = ["full"] }
