[package]
name = "bth_rigging"
version = "0.1.0"
edition = "2021"
publish = false

[dependencies]
uuid = { version = "1", features = ["v4", "serde"] }
serde = { version = "1", features = ["derive"] }
serde_json = "1"
thiserror = "2"
chrono = "0.4"
indexmap = { version = "2", features = ["serde"] }
dirs = "*"
infinite-db = "*"
