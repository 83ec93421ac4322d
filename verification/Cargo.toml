[package]
name = "regexr_server"
version = "0.1.0"
edition = "2021"
publish = false

[dependencies]
axum = "0.7"
bytes = "1"
mime_guess = "2"
pcre2-sys = "0.2"
rust-embed = "8"
serde = { version = "1", features = ["derive"] }
serde_json = "1"
tokio = { version = "1", features = ["full"] }
tower = { version = "0.4", features = ["timeout", "util"] }
tower-http = { version = "0.5", features = ["set-header"] }
tracing = "0.1"
tracing-subscriber = "0.3"
