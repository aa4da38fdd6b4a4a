[package]
name = "driftmap"
version = "0.1.0"
edition = "2021"
publish = false

[dependencies]
httparse = "=1.10.1"
serde = { version = "=1.0.229", features = ["derive"] }
serde_json = "=1.0.154"
anyhow = "=1.0.104"
tokio = { version = "=1.54.1", features = ["rt-multi-thread", "macros", "net", "sync", "time", "io-util"] }
tracing = "=0.1.44"
toml = "=0.8.23"
clap = { version = "=4.6.7", features = ["derive"] }
chrono = { version = "=0.4.45", default-features = false, features = ["clock", "std"] }
axum = { version = "=0.7.9", default-features = false, features = ["tokio", "http1"] }
reqwest = { version = "=0.12.28", default-features = false, features = ["json"] }
crossterm = "=0.28.1"
ratatui = "=0.29.0"
rusqlite = { version = "=0.32.1", features = ["bundled"] }
wasmtime = { version = "=40.0.4", default-features = false, features = ["runtime", "cranelift"] }
aya = "=0.13.1"
aya-log = "=0.2.1"
dialoguer = "=0.11.0"
console = "=0.15.11"
