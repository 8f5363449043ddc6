[package]
name = "ssz"
version = "0.1.0"
edition = "2021"
publish = false

[dependencies]
sha2 = "*"
blst = "*"
hex = "*"
serde = { version = "*", features = ["derive"] }
serde_json = { version = "*", features = ["raw_value"] }
threadpool = "*"
webpki-roots = "*"
