[package]
name = "argus_polymarket_db"
version = "1.5.0"
edition = "2021"
publish = false

[dependencies]
serde = "=1.0.229"
serde_json = "=1.0.154"
flate2 = "=1.1.10"
log = { version = "=0.4.35", features = ["std"] }
dotenvy = "=0.15.7"
shellexpand = "=3.1.2"
sysinfo = "=0.40.1"
ureq = { version = "=3.5.1", features = ["json", "socks-proxy"] }
