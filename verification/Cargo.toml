[package]
name = "solid_server"
version = "0.1.0"
edition = "2021"
publish = false

[dependencies]
anyhow = "1"
async-trait = "0.1"
axum = "0.7"
reqwest = { version = "0.12", default-features = false }
tracing = "0.1"
uuid = { version = "1", features = ["v4"] }
