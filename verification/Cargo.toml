[package]
name = "httpstress"
version = "0.1.0"
edition = "2021"
publish = false

[dependencies]
http = "1"
clap = { version = "4", features = ["derive"] }
tokio = { version = "1", features = ["full"] }
hyper = { version = "1", features = ["full"] }
hyper-util = { version = "0.1", features = ["client-legacy", "http1", "tokio"] }
hyper-rustls = "*"
rustls = "*"
webpki-roots = "*"
http-body-util = "0.1"
anyhow = "1"
byte-unit = "*"
