[package]
name = "schema_db"
version = "0.1.0"
edition = "2021"
publish = false

[dependencies]
serde = { version = "1", features = ["derive"] }
serde_json = "1"
sled = "0.34"
uuid = { version = "1", features = ["v4"] }
tokio = { version = "1", features = ["net", "io-util", "rt-multi-thread", "macros", "sync"] }
reqwest = { version = "0.12", default-features = false }

[dev-dependencies]
tempfile = "3"
