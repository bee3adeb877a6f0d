[package]
name = "monadns"
version = "0.1.0"
edition = "2021"
publish = false

[dependencies]
anyhow = "=1.0.104"
arc-swap = "=1.9.3"
async-trait = "=0.1.92"
axum = "=0.8.9"
axum-embed = "=0.1.0"
chrono = { version = "=0.4.45", default-features = false, features = ["clock", "std", "serde"] }
dashmap = "=6.2.1"
env_logger = { version = "=0.11.11", default-features = false }
futures = "=0.3.34"
geosite-rs = "=0.1.6"
hickory-proto = "=0.26.3"
hickory-resolver = { version = "=0.26.3", features = ["https-ring", "tls-ring"] }
hickory-server = "=0.26.3"
ipnet = { version = "=2.12.2", features = ["serde"] }
log = "=0.4.35"
lru = "=0.19.0"
metrics = "=0.24.6"
metrics-exporter-prometheus = { version = "=0.18.3", default-features = false, features = ["http-listener"] }
nftables = "=0.6.3"
reqwest = { version = "=0.12.28", default-features = false, features = ["rustls-tls"] }
rtnetlink = "=0.23.0"
rust-embed = "=8.13.0"
serde = { version = "=1.0.229", features = ["derive"] }
serde_json = "=1.0.154"
sqlx = { version = "=0.8.6", default-features = false, features = ["sqlite", "runtime-tokio", "macros", "migrate", "chrono"] }
tokio = { version = "=1.54.1", features = ["full"] }
toml = "=1.1.8"
utoipa = { version = "=6.0.0", features = ["axum_extras", "chrono"] }
utoipa-axum = "=0.3.0"
utoipa-swagger-ui = { version = "=10.0.2", features = ["axum", "vendored"] }
