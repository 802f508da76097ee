[package]
name = "dispatch"
version = "0.3.0"
edition = "2021"
publish = false

[dependencies]
base64 = "0.22"
dirs = "6"
futures = "0.3"
glob = "0.3"
openssh = "0.11"
serde = { version = "1", features = ["derive"] }
sha2 = "0.10"
thiserror = "2"
tokio = { version = "1", features = ["process", "io-util", "time", "macros", "rt"] }
toml = "0.8"
