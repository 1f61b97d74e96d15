[package]
name = "silex"
version = "0.1.0"
edition = "2021"
publish = false

[dependencies]
blake3 = "=1.8.7"
ed25519-dalek = { version = "=2.2.0", features = ["rand_core"] }
flate2 = "=1.1.10"
similar = "=2.7.0"
sqlite = { version = "=0.37.4", features = ["bundled"] }
chrono = "=0.4.45"
clap = "=4.6.7"
crossterm = "=0.29.0"
inquire = "=0.9.4"
tabled = "=0.22.0"
ignore = "=0.4.34"
git2 = { version = "=0.20.4", default-features = false }
uuid = { version = "=1.29.0", features = ["v4"] }
rand = "=0.8.8"
hex = "0.4.3"
