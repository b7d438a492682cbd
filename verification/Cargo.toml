[package]
name = "kasma"
version = "0.1.0"
edition = "2021"
publish = false

[dependencies]
anyhow = "1"
crossterm = "*"
http-body-util = "0.1"
hyper = { version = "1", features = ["client", "http1"] }
hyper-rustls = { version = "0.27", default-features = false, features = ["ring", "native-tokio", "http1", "tls12"] }
hyper-util = { version = "0.1", features = ["client-legacy", "http1", "tokio"] }
indicatif = "*"
once_cell = "1"
regex = "1"
strum = "*"
strum_macros = "*"
thiserror = "*"
tokio = { version = "1", features = ["rt", "sync", "time", "macros"] }
uuid = { version = "1", features = ["v4"] }
