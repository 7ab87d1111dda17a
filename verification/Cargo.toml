[package]
name = "dvion_vpn"
version = "0.1.0"
edition = "2021"
publish = false

[dependencies]
anyhow = "=1.0.104"
chacha20poly1305 = "=0.10.1"
hkdf = "=0.12.4"
sha2 = "=0.10.9"
ml-kem = { version = "=0.3.4", features = ["getrandom"] }
x25519-dalek = { version = "=2.0.1", features = ["static_secrets"] }
rand = "=0.8.8"
subtle = "=2.6.1"
quinn = "=0.11.12"
rustls = { version = "=0.23.46", default-features = false, features = ["ring", "std", "logging", "tls12"] }
rcgen = "=0.13.2"
tokio = { version = "=1.54.1", features = ["full"] }
tracing = "=0.1.44"
tracing-subscriber = { version = "=0.3.23", features = ["env-filter"] }
clap = { version = "=4.6.7", features = ["derive"] }
tun2 = { version = "=4.0.0", features = ["async"] }
libc = "=0.2.191"
jni = "=0.21.1"
android_logger = "=0.14.1"
