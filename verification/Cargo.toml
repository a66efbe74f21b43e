[package]
name = "newt"
version = "0.1.0"
edition = "2021"
publish = false

[dependencies]
base64 = "0.22"
boringtun = { version = "*", default-features = false }
chacha20poly1305 = "0.10"
futures-util = "0.3"
libc = "0.2"
rand_core = { version = "0.6", features = ["getrandom"] }
rustls = { version = "0.23", default-features = false, features = ["ring", "std", "tls12"] }
serde = { version = "1", features = ["derive"] }
serde_json = "1"
smoltcp = { version = "0.12", default-features = false, features = ["std", "medium-ip", "proto-ipv4", "proto-ipv6", "socket-tcp"] }
tokio = { version = "1", features = ["rt", "net", "io-util", "time", "signal", "sync", "macros"] }
tokio-rustls = { version = "0.26", default-features = false, features = ["ring", "tls12"] }
webpki-roots = "1"
x25519-dalek = { version = "2", features = ["static_secrets"] }
