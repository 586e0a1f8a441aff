[package]
name = "spectrum"
version = "0.1.0"
edition = "2021"
publish = false

[dependencies]
anyhow = "1"
cpal = "*"
ratatui = { version = "*", default-features = false }
rustfft = "6"
tokio = { version = "1", features = ["rt-multi-thread", "macros", "sync"] }
