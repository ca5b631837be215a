[package]
name = "automosaic"
version = "0.1.0"
edition = "2021"
publish = false

[dependencies]
clap = { version = "=4.6.7", features = ["derive"] }
jpeg-decoder = "=0.3.2"
ort = { version = "=2.0.0-rc.15", default-features = false, features = ["std", "load-dynamic", "coreml", "directml", "webgpu"] }
rayon = "=1.12.0"
rustfft = "=6.4.1"
serde = { version = "=1.0.229", features = ["derive"] }
serde_json = "=1.0.154"
sha2 = "=0.10.9"
thiserror = "=2.0.21"
ureq = "=2.12.1"
