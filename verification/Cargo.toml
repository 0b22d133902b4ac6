[package]
name = "sleepytale"
version = "0.1.0"
edition = "2021"
publish = false

[dependencies]
aes = "0.8"
aes-gcm = "0.10"
anyhow = "1"
clap = { version = "4", features = ["derive"] }
hkdf = "0.12"
libc = "0.2"
serde = { version = "1", features = ["derive"] }
sha2 = "0.10"
socket2 = "0.5"
tokio = { version = "1", features = ["full"] }
toml = "0.8"
tracing = "0.1"
tracing-subscriber = { version = "0.3", features = ["env-filter"] }
