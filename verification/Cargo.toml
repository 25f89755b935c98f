[package]
name = "serialcom"
version = "0.1.0"
edition = "2021"
publish = false

[dependencies]
base64 = "0.22"
openssl = "0.10"
serialport = { version = "4", default-features = false }
