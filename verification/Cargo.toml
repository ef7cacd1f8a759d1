[package]
name = "pixcil"
version = "0.1.0"
edition = "2021"
publish = false

[dependencies]
libflate = "=2.3.2"
orfail = "=1.1.0"
pagurus = { version = "=0.7.4", features = ["image"] }
serde = { version = "=1.0.229", features = ["derive"] }
serde_json = "=1.0.154"
