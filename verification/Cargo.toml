[package]
name = "mop"
version = "0.1.0"
edition = "2021"
publish = false

[dependencies]
anyhow = "1"
async-trait = "0.1"
bollard = "0.18"
chrono = "0.4"
futures-util = "0.3"
libarchive2 = "*"
libvips = "1"
notify = "8"
serde = { version = "1", features = ["derive"] }
serde_json = "1"
tempfile = "3"
thiserror = "2"
tokio = { version = "1", features = ["rt-multi-thread", "macros", "sync", "time", "net", "io-util"] }
tracing = "0.1"
tracing-subscriber = { version = "0.3", features = ["env-filter"] }
walkdir = "2"
zbus = "5"
zip = { version = "2", default-features = false, features = ["deflate"] }
