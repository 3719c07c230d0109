[package]
name = "clipboard_ultra"
version = "0.7.0"
edition = "2021"
publish = false

[dependencies]
sha2 = "0.10"
chrono = "0.4"
regex = "1"
serde_json = "1"
url = "2"
base64 = "0.22"
uuid = { version = "1", features = ["v4"] }
serde = { version = "1", features = ["derive"] }
rusqlite = { version = "*", features = ["bundled"] }
image = { version = "0.25", default-features = false, features = ["png"] }
clipboard-rs = "0.2"
enigo = "0.2"
