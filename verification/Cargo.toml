[package]
name = "sophist"
version = "0.1.0"
edition = "2021"
publish = false

[dependencies]
base64 = "0.21"
uuid = { version = "1", features = ["v4"] }
serde = { version = "1", features = ["derive"] }
serde_json = "1"
reqwest = { version = "0.12", default-features = false, features = ["json", "rustls-tls"] }
tokio = { version = "1", features = ["macros", "rt-multi-thread"] }
rusqlite = { version = "*", features = ["bundled"] }
dotenv = "0.15"
notify = "*"
