[package]
name = "event_timers"
version = "0.1.0"
edition = "2021"
publish = false

[dependencies]
once_cell = "=1.21.4"
parking_lot = "=0.13.0"
libc = "=0.2.191"
reqwest = { version = "=0.12.28", default-features = false, features = ["json", "rustls-tls"] }
tokio = { version = "=1.54.1", features = ["rt"] }
