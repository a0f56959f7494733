[package]
name = "scanner_processor"
version = "0.1.0"
edition = "2021"
publish = false

[dependencies]
anyhow = "1"
crossbeam-channel = "0.5"
image = { version = "0.25", default-features = false, features = ["png", "jpeg"] }
leptess = "0.14"
lopdf = "0.34"
notify = "6"
pdfium-render = "0.8"
regex = "1"
serde = { version = "1", features = ["derive"] }
thiserror = "1"
toml = "0.8"
tracing = "0.1"
tracing-subscriber = "0.3"
