[package]
name = "vee"
version = "0.1.1"
edition = "2021"
publish = false

[dependencies]
anyhow = "1"
base64 = "0.22"
clap = { version = "4", features = ["derive"] }
console = "0.15"
flate2 = "1"
hex = "0.4"
indicatif = "0.17"
pathdiff = "0.2"
rayon = "1"
reqwest = { version = "0.12", default-features = false, features = ["rustls-tls", "http2"] }
semver = "1"
serde = { version = "1", features = ["derive"] }
serde_json = "1"
sha1 = "0.10"
sha2 = "0.10"
tar = "0.4"
tempfile = "3"
tokio = { version = "1", features = ["full"] }
