[package]
name = "uepm"
version = "0.1.0"
edition = "2021"
publish = false

[dependencies]
base64 = "0.22"
bytes = "1"
configparser = "3"
dirs-next = "2"
flate2 = "1"
reqwest = { version = "0.12", default-features = false, features = ["rustls-tls"] }
semver = "1"
serde_json = "1"
sha2 = "0.10"
tar = "0.4"
tracing = "0.1"
winreg = "0.52"
