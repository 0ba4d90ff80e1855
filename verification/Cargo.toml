[package]
name = "linkpage"
version = "0.1.0"
edition = "2021"
publish = false

[dependencies]
base64 = "=0.21.7"
zip = { version = "=0.6.6", default-features = false, features = ["deflate"] }

[dev-dependencies]
serde_json = "=1.0.151"
