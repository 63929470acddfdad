[package]
name = "forkd"
version = "0.5.0"
edition = "2021"
publish = false

[dependencies]
anyhow = "1"
axum = "0.7"
libc = "0.2"
parking_lot = "0.12"
serde = { version = "1", features = ["derive"] }
serde_json = { version = "1", features = ["float_roundtrip"] }
sha2 = "0.10"
subtle = "2"
tar = "0.4"
time = "0.3"
toml = "0.8"
tracing = "0.1"
ureq = "2"
zstd = "0.13"
