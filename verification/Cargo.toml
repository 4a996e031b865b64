[package]
name = "agent-share"
version = "0.1.0"
edition = "2021"
publish = false

[dependencies]
iroh-base = "*"
iroh = "*"
sha2 = "0.10"
serde = { version = "1", features = ["derive"] }
serde_json = "1"
futures = "0.3"
