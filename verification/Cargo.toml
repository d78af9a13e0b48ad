[package]
name = "whichlicense_detection"
version = "0.1.0"
edition = "2021"
publish = false

[dependencies]
bincode = "=1.3.3"
diff = "=0.1.13"
fuzzyhash = "=0.2.2"
gaoya = "=0.2.2"
regex = "=1.13.1"
serde = { version = "=1.0.229", features = ["derive"] }
serde_json = "=1.0.154"
