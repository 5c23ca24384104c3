[package]
name = "endo"
version = "0.1.0"
edition = "2021"
publish = false

[dependencies]
xi-rope = "=0.3.0"
serde = { version = "=1.0.229", features = ["derive"] }
ron = "=0.6.6"
image = { version = "0.24", default-features = false, features = ["png"] }
eframe = "0.19"
