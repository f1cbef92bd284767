[package]
name = "stream"
version = "0.1.0"
edition = "2021"
publish = false

[dependencies]
chrono = { version = "0.4", default-features = false, features = ["clock"] }
futures = "0.3"
tokio = { version = "1", features = ["macros", "rt", "rt-multi-thread", "test-util", "time"] }
tokio-stream = "0.1"
