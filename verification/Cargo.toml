[package]
name = "io_drivers"
version = "0.1.0"
edition = "2021"
publish = false

[dependencies]
hyper = { version = "0.14", features = ["client", "http1", "tcp"] }
hyper-rustls = { version = "0.23" }
rustls = { version = "0.20" }
tokio = { version = "1", features = ["io-std", "io-util", "macros", "rt", "sync"] }
