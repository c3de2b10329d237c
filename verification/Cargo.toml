[package]
name = "rune"
version = "0.1.0"
edition = "2021"
publish = false

[dependencies]
argon2 = "0.5"
ring = "0.17"
rand = "0.8"
base64 = "0.22"
uuid = { version = "1", features = ["v4"] }
serde = { version = "1", features = ["derive"] }
serde_json = "1"
dirs = "5"
parking_lot = "0.12"
zeroize = "1"
thiserror = "2"
rusqlite = { version = "0.32", features = ["bundled"] }
docx-rs = "0.4"
