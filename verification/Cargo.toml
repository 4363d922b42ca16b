[package]
name = "sui_gas_pool"
version = "0.1.0"
edition = "2021"
publish = false

[dependencies]
chrono = { version = "0.4", default-features = false, features = ["clock", "std"] }
moka = { version = "0.12", features = ["sync"] }
anyhow = "1"
async-trait = "0.1"
axum = { version = "0.6", features = ["headers"] }
bcs = "0.1"
clap = { version = "4", features = ["derive"] }
once_cell = "1"
parking_lot = "0.12"
prometheus = { version = "0.13", default-features = false }
rand = "0.8"
redis = { version = "0.23", features = ["tokio-comp", "connection-manager"] }
reqwest = { version = "0.11", default-features = false, features = ["json"] }
serde = { version = "1", features = ["derive"] }
serde_json = "1"
tap = "1"
tokio = { version = "1", features = ["rt-multi-thread", "macros", "time", "sync"] }
tokio-retry = "0.3"
tracing = "0.1"
