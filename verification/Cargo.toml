[package]
name = "coach_app"
version = "0.1.0"
edition = "2021"
publish = false

[dependencies]
base64 = "0.22"
directories = "6"
ffmpeg-sidecar = "2"
regex = "1"
serde = { version = "1", features = ["derive"] }
serde_json = "1"
tiny_http = "0.12"
tokio = { version = "1", features = ["rt", "sync"] }
zip = { version = "9", default-features = false, features = ["deflate"] }
