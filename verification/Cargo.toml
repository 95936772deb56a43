[package]
name = "axum"
version = "0.1.0"
edition = "2021"
publish = false

[dependencies]
http = "1"
mime = "0.3"
serde = "1"
tower-service = "0.3"
