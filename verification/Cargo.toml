[package]
name = "excretor"
version = "0.1.0"
edition = "2021"
publish = false

[dependencies]
askama = "0.12"
chrono = { version = "0.4", default-features = false, features = ["std"] }
color-eyre = "0.6"
sqlx = { version = "0.8", default-features = false, features = ["postgres", "chrono", "runtime-tokio", "derive", "migrate"] }
