[package]
name = "void_engine"
version = "0.1.0"
edition = "2021"
publish = false

[dependencies]
bincode = "1"
chrono = "0.4"
glam = "0.29"
log = "0.4"
quinn = "0.11"
rcgen = "0.13"
refinery = { version = "0.8", features = ["tokio-postgres"] }
rustls = { version = "0.23", default-features = false, features = ["ring", "std", "logging", "tls12"] }
serde = { version = "1", features = ["derive"] }
tokio = { version = "1", features = ["rt", "rt-multi-thread", "sync", "time", "net", "io-util", "macros"] }
tokio-postgres = "0.7"
ureq = { version = "2", default-features = false, features = ["tls"] }
webpki-roots = "0.26"
