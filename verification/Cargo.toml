[package]
name = "b2_backup"
version = "0.1.0"
edition = "2021"
publish = false

[dependencies]
aws-lc-rs = "=1.18.2"
base64 = "=0.22.1"
blake3 = "=1.8.7"
chacha20poly1305 = "=0.10.1"
clap = { version = "=4.6.7", features = ["cargo"] }
hex = "=0.4.3"
nix = { version = "=0.31.3", features = ["fs", "signal", "zerocopy"] }
rayon = "=1.12.0"
ring = "=0.17.14"
rusqlite = { version = "=0.41.0", features = ["bundled"] }
serde = { version = "=1.0.229", features = ["derive"] }
serde_yaml = "=0.9.34"
tempfile = "=3.27.0"
zeptohttpc = { version = "=0.10.4", features = ["json", "tls"] }
zstd = "=0.13.3"
