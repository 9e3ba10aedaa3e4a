[package]
name = "netom"
version = "0.1.0"
edition = "2021"
publish = false

[dependencies]
axum = "=0.8.9"
bytes = "=1.12.1"
bzip2 = "=0.6.1"
flate2 = "=1.1.10"
inetnum = { version = "=0.1.1", features = ["serde"] }
log = "=0.4.35"
octseq = { version = "=0.5.2", features = ["bytes"] }
rotonda-store = "=0.5.0"
routecore = { version = "=0.7.2", features = ["bgp", "mrt", "serde"] }
serde = { version = "=1.0.229", features = ["derive"] }
serde_json = "=1.0.154"
serde_with = "=3.24.0"
sha2 = "0.10"
tokio = { version = "=1.54.1", features = ["full"] }
tokio-stream = "=0.1.19"
