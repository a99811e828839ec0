[package]
name = "msiviewer"
version = "0.1.0"
edition = "2021"
publish = false

[dependencies]
msi = "*"
mediatype = "*"
glib = "*"
gio-sys = "*"
axum = "0.6"
tokio = { version = "1", features = ["sync", "time", "macros", "rt-multi-thread"] }
tokio-stream = { version = "0.1", features = ["sync"] }
notify = "*"
chrono = "0.4"
futures-core = "0.3"
pin-project-lite = "0.2"
serde_json = "1"
ureq = "3"
anyhow = "1"
