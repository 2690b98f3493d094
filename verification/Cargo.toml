[package]
name = "multiboot"
version = "1.3.1"
edition = "2021"
publish = false

[dependencies]
base64 = "=0.22.1"
getrandom = "=0.4.3"
image = { version = "=0.25.10", default-features = false, features = ["png", "jpeg", "webp", "ico"] }
log = "=0.4.35"
serde = { version = "=1.0.229", features = ["derive"] }
serde_json = "=1.0.154"
uuid = { version = "=1.29.0", features = ["v4", "serde"] }
