[package]
name = "icepeak_kv"
version = "0.1.0"
edition = "2021"
publish = false

[dependencies]
chrono = "0.4"
parking_lot = "0.12"
rand = "0.8"
smol_str = "*"
thiserror = "1"
tokio = { version = "1", features = ["macros", "rt", "time"] }
tokio-util = "0.7"
