[package]
name = "photobooth"
version = "0.1.0"
edition = "2021"
publish = false

[dependencies]
chrono = { version = "0.4", default-features = false, features = ["alloc"] }
serde_json = "1"
axum = { version = "*", features = ["multipart"] }
axum-client-ip = "*"
tokio = { version = "*", features = ["full"] }
tower-http = { version = "*", features = ["fs"] }
reqwest = { version = "*", default-features = false }
