[package]
name = "strftime_utc"
version = "0.1.0"
edition = "2021"

[dev-dependencies]
chrono = { version = "0.4", default-features = false, features = ["std"] }
