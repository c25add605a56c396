[package]
name = "unf_encryption"
version = "0.1.0"
edition = "2021"
publish = false

[dependencies]
sha2 = "=0.10.9"
x25519-dalek = { version = "=2.0.1", features = ["static_secrets"] }
getrandom = "=0.3.4"
zeroize = "=1.9.1"
serde = { version = "=1.0.229", features = ["derive"] }
serde_json = "=1.0.154"
thiserror = "=2.0.21"
rtnetlink = "*"
genetlink = "*"
netlink-packet-core = "*"
netlink-packet-generic = "*"
netlink-packet-wireguard = "*"
futures = "*"
tokio = { version = "1", features = ["rt"] }
