[package]
name = "stats_cruncher"
version = "0.1.0"
edition = "2021"
publish = false

[dependencies]
arc-swap = "=1.9.3"
axum = "=0.8.9"
chrono = "=0.4.45"
clap = { version = "=4.6.7", features = ["derive"] }
csv = "=1.4.0"
flate2 = "=1.1.10"
flume = "=0.11.1"
memory-stats = "=1.2.0"
roaring = "=0.12.0"
rusqlite = { version = "=0.41.1", features = ["bundled"] }
serde = { version = "=1.0.229", features = ["derive"] }
tokio = { version = "=1.54.1", features = ["rt-multi-thread", "macros", "net", "signal", "sync", "time"] }
toml = "=1.1.8"
tracing = "=0.1.44"
tracing-subscriber = { version = "=0.3.23", features = ["env-filter", "json"] }
utoipa = "=5.5.0"
utoipa-swagger-ui = { version = "=9.0.2", features = ["axum", "vendored"] }
