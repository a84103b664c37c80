[package]
name = "game_of_life"
version = "0.1.0"
edition = "2021"
publish = false

[dependencies]
quick-xml = "=0.31.0"
zstd = "=0.13.3"
thiserror = "=1.0.69"
anyhow = "=1.0.104"
axum = "=0.7.9"
tokio = { version = "=1.54.1", features = ["full"] }
tower-http = { version = "=0.5.2", features = ["trace"] }
tracing = "=0.1.44"
tracing-subscriber = "=0.3.23"
serde = { version = "=1.0.229", features = ["derive"] }
rusqlite = { version = "=0.31.0", features = ["bundled"] }
r2d2 = "=0.8.10"
r2d2_sqlite = "=0.24.0"
worker = "=0.8.7"
http = "=1.5.0"
console_error_panic_hook = "=0.1.7"
