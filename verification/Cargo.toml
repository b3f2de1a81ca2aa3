[package]
name = "asset_library"
version = "0.1.0"
edition = "2021"
publish = false

[dependencies]
unicode-normalization = "=0.1.26"
uuid = { version = "=1.29.0", features = ["v7"] }
chrono = "=0.4.45"
sha2 = "=0.10.9"
serde = { version = "=1.0.229", features = ["derive"] }
serde_json = "=1.0.154"
walkdir = "=2.5.0"
globset = "=0.4.21"
notify = "=8.2.1"
serde_yaml_ng = "=0.10.0"
tempfile = "=3.27.0"
imagesize = "*"
