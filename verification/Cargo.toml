[package]
name = "atelier"
version = "0.1.0"
edition = "2021"
publish = false

[dependencies]
lz4_flex = "=0.14.0"
serde = { version = "=1.0.229", features = ["derive"] }
serde_json = "=1.0.154"
zip = { version = "=9.2.2", default-features = false, features = ["deflate"] }
image = { version = "=0.25.10", default-features = false, features = ["png", "jpeg", "tiff", "bmp", "gif", "webp"] }
lcms2 = "=6.2.0"
