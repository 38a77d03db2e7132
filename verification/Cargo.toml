[package]
name = "ocr_index"
version = "0.1.0"
edition = "2021"
publish = false

[dependencies]
anyhow = "=1.0.104"
chrono = { version = "=0.4.45", features = ["serde"] }
clap = { version = "=4.6.7", features = ["derive"] }
image = { version = "=0.25.10", default-features = false, features = ["png", "jpeg", "gif", "bmp", "tiff", "webp"] }
ocrs = "=0.13.1"
rten = "=0.26.0"
rusqlite = "=0.41.0"
serde = { version = "=1.0.229", features = ["derive"] }
