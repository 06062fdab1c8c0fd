[package]
name = "content_mapp_rs"
version = "0.1.0"
edition = "2021"
publish = false

[dependencies]
anyhow = "=1.0.104"
axum = "=0.7.9"
axum-embed = "=0.1.0"
clap = { version = "=4.6.7", features = ["derive"] }
flate2 = "=1.1.10"
ignore = "=0.4.34"
open = "=5.4.5"
rayon = "=1.12.0"
rust-embed = { version = "=8.13.0", features = ["interpolate-folder-path"] }
serde = { version = "=1.0.229", features = ["derive"] }
serde_json = "=1.0.154"
tokio = { version = "=1.54.1", features = ["full"] }
