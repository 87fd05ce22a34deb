[package]
name = "qrport"
version = "0.1.0"
edition = "2021"

[dependencies]
clap = { version = "=4.6.7", features = ["derive"] }
local-ip-address = "=0.6.13"
qrcode-generator = { version = "=4.1.9", default-features = false }
