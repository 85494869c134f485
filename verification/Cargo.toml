[package]
name = "arch_mirror"
version = "0.1.0"
edition = "2021"
publish = false

[dependencies]
axum = { version = "0.8", features = ["macros"] }
bytes = "1"
flate2 = "1"
futures-core = "0.3"
http = "1"
http-body-util = "0.1"
hyper = { version = "1", features = ["server", "http1"] }
hyper-util = { version = "0.1", features = ["tokio"] }
pin-project-lite = "0.2"
reqwest = { version = "0.12", default-features = false, features = ["rustls-tls", "stream"] }
tar = "0.4"
tokio = { version = "1", features = ["full"] }
tokio-util = { version = "0.7", features = ["io"] }
