[package]
name = "warp_socks"
version = "0.1.0"
edition = "2021"
publish = false

[dependencies]
anyhow = "1"
async-trait = "0.1"
base64 = "0.22"
boringtun = "*"
env_logger = "0.11"
futures = "0.3"
httparse = "1"
log = "0.4"
p256 = { version = "0.13", features = ["ecdsa", "pem", "pkcs8"] }
parking_lot = "0.12"
quinn = { version = "0.11", default-features = false, features = ["runtime-tokio", "rustls-ring"] }
quinn-proto = { version = "0.11", default-features = false, features = ["rustls-ring"] }
rand = "0.8"
rcgen = { version = "0.13", default-features = false, features = ["ring", "crypto", "pem"] }
reqwest = { version = "0.12", default-features = false, features = ["rustls-tls", "json", "socks", "http2"] }
rustls = { version = "0.23", default-features = false, features = ["ring", "std", "tls12", "logging"] }
serde = { version = "1", features = ["derive"] }
serde_json = "1"
smoltcp = { version = "0.13", default-features = false, features = ["std", "medium-ip", "proto-ipv4", "proto-ipv6", "socket-tcp", "socket-udp", "async"] }
time = { version = "0.3", features = ["formatting"] }
tokio = { version = "1", features = ["full"] }
tokio-rustls = { version = "0.26", default-features = false, features = ["ring", "tls12", "logging"] }
webpki-roots = "0.26"
x509-parser = "0.16"
