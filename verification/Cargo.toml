[package]
name = "rstracer"
version = "0.1.0"
edition = "2021"
publish = false

[dependencies]
rand = "0.7"
rayon = "1"
serde = { version = "1", features = ["derive"] }
serde_yaml = "0.8"
png = "0.16"
num-complex = "0.2"
base64 = "0.12"
