[package]
name = "minidist_rs"
version = "0.1.0"
edition = "2021"
publish = false

[dependencies]
rustc_apfloat = "*"
serde = { version = "*", features = ["derive"] }
rmp-serde = "*"
tokio = { version = "*", features = ["full"] }
axum = "*"
clap = { version = "*", features = ["derive"] }
anyhow = "*"
