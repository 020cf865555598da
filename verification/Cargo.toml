[package]
name = "protocrap"
version = "0.1.0"
edition = "2021"
publish = false

[dependencies]
time = { version = "0.3", features = ["formatting", "parsing"] }
base64 = "0.22"
serde = "1"
serde_json = "1"
anyhow = "1"
futures = "0.3"
