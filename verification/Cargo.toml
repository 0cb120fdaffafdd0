[package]
name = "zkitap"
version = "0.1.0"
edition = "2021"
publish = false

[dependencies]
aes = "=0.9.4"
anyhow = "=1.0.104"
base64 = "=0.22.1"
blowfish = "=0.10.0"
clap = { version = "=4.6.7", features = ["derive"] }
flate2 = "=1.1.10"
hex = "=0.4.3"
image = { version = "=0.25.10", default-features = false, features = ["webp", "jpeg", "png"] }
lzma-rs = { version = "=0.3.0", features = ["raw_decoder"] }
notify = "=8.2.1"
oxidize-pdf = "=5.5.6"
rayon = "=1.12.0"
regex = "=1.13.1"
serde = { version = "=1.0.229", features = ["derive"] }
serde_json = "=1.0.154"
swf = "=0.4.0"
tempfile = "=3.27.0"
tracing = "=0.1.44"
tracing-subscriber = { version = "=0.3.23", features = ["env-filter"] }
walkdir = "=2.5.0"
