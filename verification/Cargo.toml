[package]
name = "trufflepig"
version = "0.1.0"
edition = "2021"
publish = false

[dependencies]
anyhow = "=1.0.104"
blake3 = "=1.8.7"
fastembed = { version = "=5.17.4", default-features = false, features = ["ort-load-dynamic"] }
fs2 = "=0.4.3"
ignore = "=0.4.34"
libc = "=0.2.191"
ort = { version = "=2.0.0-rc.13", default-features = false, features = ["std", "load-dynamic", "cuda"] }
rusqlite = { version = "=0.41.1", features = ["bundled"] }
serde = { version = "=1.0.229", features = ["derive"] }
serde_json = "=1.0.154"
sha2 = "=0.10.9"
tempfile = "=3.27.0"
toml = "=0.8.23"
uuid = { version = "=1.29.0", features = ["v4"] }
