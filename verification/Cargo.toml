[package]
name = "xo"
version = "0.1.0"
edition = "2021"
publish = false

[dependencies]
aes-gcm = "0.10"
anyhow = "=1.0.104"
argon2 = "0.5"
base64 = "0.22"
blake3 = "=1.8.7"
ciborium = "=0.2.2"
ed25519-dalek = "=2.2.0"
rand = "=0.9.5"
regex = "=1.13.1"
serde = { version = "=1.0.229", features = ["derive"] }
serde_json = "=1.0.154"
serde_yaml = "=0.9.34"
sha2 = "=0.10.9"
subtle = "=2.6.1"
thiserror = "=2.0.21"
time = { version = "=0.3.55", features = ["formatting", "parsing", "macros", "local-offset"] }
