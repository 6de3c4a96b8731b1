[package]
name = "adif"
version = "0.1.0"
edition = "2021"
publish = false

[dependencies]
bytes = "1"
chrono = { version = "0.4", default-features = false, features = ["std"] }
futures = "0.3"
indexmap = "2"
itoa = "1"
rust_decimal = { version = "1", default-features = false, features = ["std"] }
thiserror = "2"
tokio = "1"
tokio-util = { version = "0.7", features = ["codec"] }
