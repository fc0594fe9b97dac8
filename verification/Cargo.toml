[package]
name = "kad_dht"
version = "0.1.0"
edition = "2021"
publish = false

[dependencies]
chrono = "0.4"
digest = "0.10"
futures = "0.3"
openssl = "0.10"
parking_lot = "0.12"
primitive-types = "0.12"
prost = "0.11"
rand = "0.8"
sha2 = "0.10"
to-binary = "0.4"
tokio = { version = "1", features = ["rt-multi-thread", "macros", "sync", "time"] }
tokio-stream = "0.1"
tonic = "0.8"
