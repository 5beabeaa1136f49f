[package]
name = "acyclic-filesystem"
version = "0.1.0"
edition = "2021"
publish = false

[dependencies]
blake3 = "1"
bytes = "1"
futures = "0.3"
hex = "0.4"
serde = { version = "1", features = ["derive"] }
serde_json = "1"
thiserror = "2"
