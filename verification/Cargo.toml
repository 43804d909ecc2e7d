[package]
name = "hyx"
version = "0.1.0"
edition = "2021"
publish = false

[dependencies]
zstd = "=0.13.4"
sha2 = "=0.10.9"
hex = "=0.4.3"
base64 = "=0.22.1"
bitvec = "=1.1.1"
uuid = { version = "=1.29.0", features = ["v4"] }
rand = "=0.8.8"
serde = { version = "1", features = ["derive"] }
serde_json = "1"
rmp-serde = "1"
chrono = "0.4"
clap = { version = "4", features = ["derive"] }
tokio = { version = "1", features = ["full"] }
tracing = "0.1"
tracing-subscriber = "0.3"
quinn = "=0.11.12"
rustls = { version = "=0.23.46", default-features = false, features = ["ring", "std", "tls12"] }
rcgen = "=0.13.2"
dirs = "5"
fs2 = "0.4"
if-addrs = "0.13"
indicatif = "0.17"
socket2 = { version = "=0.5.10", features = ["all"] }
anyhow = "1"
