[package]
name = "phonemic"
version = "0.1.0"
edition = "2021"
publish = false

[dependencies]
blake2 = "=0.10.6"
chacha20poly1305 = "=0.10.1"
nnnoiseless = { version = "=0.5.2", default-features = false }
ringbuf = "=0.4.8"
cpal = "=0.15.3"
tokio = { version = "1", features = ["rt-multi-thread", "macros", "sync", "time"] }
axum = { version = "0.7", features = ["ws"] }
axum-server = { version = "0.7", features = ["tls-rustls"] }
tower-http = { version = "0.6", features = ["fs"] }
rcgen = "0.13"
