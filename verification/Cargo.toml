[package]
name = "fstx"
version = "0.1.1"
edition = "2021"
publish = false

[dependencies]
base64 = "0.22"
blake3 = "1"
clap = { version = "4", features = ["derive"] }
napi = "*"
napi-derive = "*"
rustix = { version = "1", features = ["fs"] }
serde = { version = "1", features = ["derive"] }
serde_json = "1"
sha2 = "0.10"
thiserror = "2"
