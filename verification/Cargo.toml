[package]
name = "mid_series"
version = "0.1.0"
edition = "2021"
publish = false

[dependencies]
pcap = "*"
serde = { version = "1", features = ["derive"] }
serde_json = "1"
