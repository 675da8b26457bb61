[package]
name = "streams_subscriber"
version = "0.1.0"
edition = "2021"

[dependencies]
serde_json = "1"
tokio = { version = "1", features = ["macros", "rt-multi-thread"] }
futures = "0.3"

[dev-dependencies]
base64 = "0.13"
