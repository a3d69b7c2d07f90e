[package]
name = "dagger"
version = "0.1.0"
edition = "2021"
publish = false

[dependencies]
anyhow = "=1.0.104"
glob = "=0.3.4"
proc-macro2 = { version = "=1.0.107", features = ["span-locations"] }
quote = "=1.0.47"
serde = { version = "=1.0.229", features = ["derive"] }
serde_json = "=1.0.154"
similar = "=3.2.1"
syn = { version = "=3.0.9", features = ["full"] }
toml = "=1.1.8"
