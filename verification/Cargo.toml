[package]
name = "sonar"
version = "0.1.0"
edition = "2021"
publish = false
rust-version = "1.95"

[dependencies]
serde_json = "=1.0.154"
serde = { version = "1", features = ["derive"] }
toasty = "=0.7.0"
topcoat = "=0.6.2"
tokio = { version = "1", features = ["macros", "rt-multi-thread"] }
reqwest = { version = "0.12", default-features = false, features = ["json", "stream"] }
bytes = "1"
futures-core = "0.3"
futures-util = "0.3"
uuid = { version = "1", features = ["v4"] }
