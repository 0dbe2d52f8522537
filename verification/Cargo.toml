[package]
name = "flamenco_tuner"
version = "0.1.0"
edition = "2021"
publish = false

[dependencies]
axum = { version = "0.8", default-features = false, features = ["http1", "tokio", "ws"] }
axum-server = { version = "0.7", features = ["tls-rustls-no-provider"] }
eframe = { version = "0.32", default-features = false, features = ["default_fonts", "glow", "x11"] }
qrcode = { version = "0.14", default-features = false }
rcgen = { version = "0.13", default-features = false, features = ["crypto", "ring"] }
rustfft = "6"
tokio = { version = "1", features = ["rt", "net", "time"] }
web-time = "1"
