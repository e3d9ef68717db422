[package]
name = "nostr_vpn_core"
version = "0.1.0"
edition = "2021"
publish = false

[dependencies]
anyhow = "=1.0.104"
base64 = "=0.22.1"
boringtun = { version = "=0.6.0", features = ["device"] }
clap = { version = "=4.6.7", features = ["derive"] }
dirs = "=5.0.1"
hex = "=0.4.3"
nostr = { version = "=0.45.6", default-features = false, features = ["std", "os-rng"] }
nostr-sdk = { version = "=0.44.1", default-features = false }
rand_core = { version = "=0.6.4", features = ["getrandom"] }
serde = { version = "=1.0.229", features = ["derive"] }
serde_json = "=1.0.154"
thiserror = "=1.0.69"
tokio = { version = "=1.54.1", features = ["full"] }
toml = "=0.8.23"
tracing-subscriber = { version = "=0.3.23", features = ["env-filter"] }
