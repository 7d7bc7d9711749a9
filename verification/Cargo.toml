[package]
name = "electrolite"
version = "0.1.0"
edition = "2021"
publish = false

[dependencies]
axum = "0.8"
http = "1"
napi = "2"
napi-derive = "2"
rusqlite = { version = "0.32", features = ["bundled", "hooks"] }
serde = { version = "1", features = ["derive"] }
serde_json = "1"
sha2 = "0.10"
thiserror = "2"
tiny_http = "0.12"
tokio = { version = "1", features = ["macros", "rt-multi-thread", "sync", "time", "net"] }

[dev-dependencies]
tempfile = "3"
