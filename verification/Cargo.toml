[package]
name = "lume"
version = "0.1.0"
edition = "2021"
publish = false

[dependencies]
base64 = "0.22"
blake3 = "1"
half = "2"
notify = "8"
rusqlite = { version = "0.32", features = ["bundled"] }
serde = { version = "1", features = ["derive"] }
serde_json = "1"
sqlite-vec = "0.1"
tauri = { version = "2", default-features = false }
thiserror = "2"
tracing = "0.1"
walkdir = "2"

[dev-dependencies]
tempfile = "3"
