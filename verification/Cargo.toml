[package]
name = "rbac_proxy"
version = "0.1.0"
edition = "2021"
publish = false

[dependencies]
base64 = "0.13"
regex = "1"
serde = "1"
serde_derive = "1"
serde_json = "1"
url = "1"
futures = "0.1"
hyper = "0.12"
pretty_env_logger = "0.3"
time = "0.1"
http = "0.1"
tokio = "0.1"
hyper-proxy = { version = "0.5", default-features = false }
typed-headers = "0.1"
tokio-core = "0.1"
hyper-reverse-proxy = "0.2"
