[package]
name = "mpconn"
version = "0.1.0"
edition = "2021"
publish = false

[dependencies]
aes-gcm-siv = "0.11"
anyhow = "1"
async-compat = "0.2"
bincode = "1"
bytes = "1"
clap = { version = "4", features = ["derive"] }
env_logger = "0.10"
etherparse = "0.13"
futures = "0.3"
log = "0.4"
nix = "0.27"
pnet_datalink = "0.34"
polling = "3"
quinn-udp = "0.4"
serde = { version = "1", features = ["derive"] }
serde_bytes = "0.11"
serde_json = "1"
smol = "2"
socket2 = { version = "0.5", features = ["all"] }
tokio = { version = "1", features = ["time", "sync", "rt", "macros"] }
tokio-tun = "0.11"
tun = "0.6"
uuid = { version = "1", features = ["v4"] }
