[package]
name = "mad_engine"
version = "0.1.0"
edition = "2021"
publish = false

[dependencies]
crc = "3"
serde = { version = "1", features = ["derive"] }
serde_json = "1"
