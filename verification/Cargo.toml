[package]
name = "worldtree"
version = "0.1.0"
edition = "2021"
publish = false

[dependencies]
md5 = "=0.7.0"
serde_json = "=1.0.154"
sha2 = "=0.10.9"
serde = { version = "=1.0.229", features = ["derive"] }
rusqlite = { version = "=0.41.0", features = ["bundled"] }
chrono = { version = "=0.4.45", features = ["serde"] }
reqwest = { version = "=0.12.28", default-features = false, features = ["json", "rustls-tls"] }
arboard = { version = "=3.7.0", default-features = false }
base64 = "=0.22.1"
uuid = { version = "=1.29.0", features = ["v4"] }
aes-gcm = "=0.10.3"
flate2 = "=1.1.10"
rand = "=0.8.8"
ed25519-dalek = { version = "=2.2.0", features = ["rand_core"] }
windows-sys = { version = "=0.59.0", features = ["Win32_UI_Input_KeyboardAndMouse"] }
