[package]
name = "gitbruv"
version = "0.1.0"
edition = "2021"
publish = false

[dependencies]
flate2 = "*"
sha1 = "*"
similar = "*"
tokio = { version = "*", features = ["full"] }
axum = "*"
aws-sdk-s3 = "*"
dashmap = "*"
serde = { version = "*", features = ["derive"] }
serde_json = "*"

[dev-dependencies]
hex = "*"
