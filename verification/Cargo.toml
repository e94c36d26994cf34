[package]
name = "uwusync_server"
version = "0.2.0"
edition = "2021"
publish = false

[dependencies]
axum = "0.8"
axum-server = { version = "0.8", default-features = false, features = ["tls-rustls-no-provider"] }
base64 = "0.22"
clap = { version = "4", features = ["derive", "env"] }
ed25519-dalek = "2"
futures-core = "0.3"
http-body = "1"
hyper-util = { version = "0.1", features = ["full"] }
libc = "0.2"
parking_lot = "0.12"
rand = "0.8"
rcgen = { version = "0.14", default-features = false, features = ["pem", "ring"] }
reqwest = { version = "0.12", default-features = false, features = ["json", "rustls-tls-manual-roots-no-provider"] }
rusqlite = { version = "0.37", features = ["bundled", "backup"] }
rustls = { version = "0.23", default-features = false, features = ["ring", "std", "tls12", "logging"] }
serde = { version = "1", features = ["derive"] }
serde_json = "1"
sha2 = "0.10"
thiserror = "2"
time = "0.3"
tokio = { version = "1", features = ["full"] }
tokio-stream = { version = "0.1", features = ["sync"] }
tower-http = { version = "0.6", features = ["limit", "timeout", "trace"] }
tower-service = "0.3"
tracing = "0.1"
tracing-subscriber = { version = "0.3", features = ["env-filter"] }
uuid = { version = "1", features = ["v4", "v7", "serde"] }
webpki-roots = "1"
