[package]
name = "rustmap_db"
version = "0.1.0"
edition = "2021"
publish = false

[dependencies]
bincode = "1"
dashmap = "5"
serde = "1"
thiserror = "1"
tokio = { version = "1", features = ["rt"] }
