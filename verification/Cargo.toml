[package]
name = "wsm_toys"
version = "0.1.0"
edition = "2021"
publish = false

[dependencies]
hashbrown = "*"
tokio = { version = "1", features = ["rt", "net", "io-util", "sync", "time", "macros", "signal"] }
log = "0.4"
env_logger = "*"
rusqlite = { version = "*", features = ["bundled"] }
serde = { version = "1", features = ["derive"] }
axum = "*"
num-complex = "*"
num-traits = "*"
rand = "*"
wide = "*"
