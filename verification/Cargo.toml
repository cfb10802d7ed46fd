[package]
name = "mzprof"
version = "0.1.0"
edition = "2021"
publish = false

[dependencies]
anyhow = "*"
async-stream = "*"
clap = { version = "*", features = ["derive"] }
flate2 = "*"
futures = "*"
sqlx = { version = "*", default-features = false, features = ["postgres", "runtime-tokio", "rust_decimal"] }
tokio = { version = "*", features = ["macros", "rt-multi-thread", "sync"] }
tokio-stream = "*"
