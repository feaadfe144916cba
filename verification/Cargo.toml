[package]
name = "snap_coin_stats"
version = "0.4.0"
edition = "2021"
publish = false

[dependencies]
anyhow = "1"
axum = "0.8"
bincode = "2"
serde = { version = "1", features = ["derive"] }
sled = "0.34"
snap-coin = "*"
tokio = { version = "1", features = ["full"] }
tower-http = { version = "*", features = ["fs"] }
