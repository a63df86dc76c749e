[package]
name = "zlack"
version = "0.1.0"
edition = "2021"
publish = false

[dependencies]
base64 = "0.22"
serde_json = "1"
url = "2"
serde = { version = "1", features = ["derive"] }
open = "3"
image = { version = "0.24", default-features = false, features = ["png", "ico"] }
lazy_static = "1"
