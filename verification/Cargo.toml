[package]
name = "stocks"
version = "0.1.0"
edition = "2021"
publish = false

[dependencies]
anyhow = "1"
serde = { version = "1", features = ["derive"] }
serde_json = "1"
time = { version = "0.3", features = ["formatting", "local-offset", "parsing", "serde"] }
ureq = { version = "2", features = ["json"] }
