[package]
name = "excelgrag"
version = "0.1.0"
edition = "2021"
publish = false

[dependencies]
petgraph = "0.8"
rustc-hash = "2"
serde = { version = "1", features = ["derive"] }
serde_json = "1"
thiserror = "2"
