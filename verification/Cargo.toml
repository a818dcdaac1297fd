[package]
name = "cache-node"
version = "0.1.0"
edition = "2021"
publish = false

[dependencies]
axum = "0.8"
bytes = "1"
hex = "0.4"
serde_json = "1"
sha2 = "0.10"
tokio = { version = "1", features = ["macros", "net", "rt-multi-thread", "sync", "time"] }
ureq = { version = "2", features = ["json"] }
webrtc = "0.12"
zip = { version = "2", default-features = false, features = ["deflate"] }
