[package]
name = "tpt-aura"
version = "0.1.0"
edition = "2021"
publish = false

[dependencies]
sha3 = "0.10"
ed25519-dalek = "2"
thiserror = "1"
serde = { version = "1", features = ["derive"] }
serde_json = "1"
clap = { version = "4", features = ["derive"] }
image = { version = "0.25", default-features = false, features = ["png", "jpeg"] }
rand = "0.8"
