[package]
name = "tgfs"
version = "0.1.0"
edition = "2021"
publish = false

[dependencies]
anyhow = "=1.0.104"
base64 = "=0.22.1"
blake3 = "=1.8.7"
chacha20poly1305 = "=0.10.1"
clap = { version = "=4.6.7", features = ["derive", "env"] }
dirs = "=7.0.0"
# The newest release that grammers-crypto builds with.
glass_pumpkin = "=2.0.0-rc0"
grammers-client = { version = "=0.10.0", default-features = false, features = ["fs"] }
grammers-session = { version = "=0.10.0", default-features = false }
ignore = "=0.4.34"
rand = "=0.9.5"
rpassword = "=7.5.4"
rusqlite = { version = "=0.41.1", features = ["bundled"] }
serde = { version = "=1.0.229", features = ["derive"] }
serde_json = "=1.0.154"
tokio = { version = "=1.54.1", features = ["full"] }
toml = "=0.9.12"
tracing = "=0.1.44"
tracing-subscriber = { version = "=0.3.23", features = ["env-filter"] }
zstd = "=0.13.4"

[dev-dependencies]
tempfile = "=3.27.0"
