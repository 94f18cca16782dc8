[package]
name = "mpdelta"
version = "0.1.0"
edition = "2021"
publish = false

[dependencies]
rpds = "=1.2.1"
uuid = { version = "=1.29.0", features = ["v1", "rng"] }
time = "=0.3.55"
serde = { version = "=1.0.229", features = ["derive"] }
thiserror = "=1.0.69"
crossbeam-queue = "=0.3.14"
