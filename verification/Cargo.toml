[package]
name = "happy-wakey"
version = "0.1.0"
edition = "2021"
publish = false

[dependencies]
base64 = "0.22"
chrono = "0.4"
dirs = "5"
dotenvy = "0.15"
notify-rust = "4"
once_cell = "1"
qmetaobject = "0.2"
rand = "0.8"
reqwest = { version = "0.12", default-features = false, features = ["blocking", "json", "rustls-tls"] }
serde = { version = "1", features = ["derive"] }
serde_json = "1"
sha2 = "0.10"
url = "2"
webbrowser = "1"
