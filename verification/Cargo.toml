[package]
name = "pq_map"
version = "0.1.0"
edition = "2021"
publish = false

[dependencies]
chrono = { version = "0.4", default-features = false, features = ["std", "clock", "serde"] }
x509-parser = "0.16"
serde = { version = "1", features = ["derive"] }
serde_json = "1"
thiserror = "1"
tokio = { version = "1", features = ["full"] }
futures = "0.3"
hickory-resolver = "0.24"
hickory-proto = "0.24"
ureq = "2"
tokio-postgres = "0.7"
rustls = "0.23"
tokio-rustls = "0.26"
openssl = "0.10"
