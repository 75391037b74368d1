[package]
name = "photo_picker"
version = "0.1.0"
edition = "2021"
publish = false

[dependencies]
blake3 = "1"
futures = "0.3"
rusqlite = { version = "0.32", features = ["bundled"] }
serde = { version = "1", features = ["derive"] }
serde_json = "1"
tauri = { version = "2", default-features = false }
time = { version = "0.3", features = ["formatting"] }
tokio = { version = "1", features = ["full"] }
uuid = { version = "1", features = ["v4"] }
walkdir = "2"

[dev-dependencies]
tempfile = "3"
