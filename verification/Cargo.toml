[package]
name = "minigit"
version = "0.1.0"
edition = "2021"
publish = false

[dependencies]
anyhow = "1"
clap = { version = "4", features = ["derive"] }
flate2 = "1"
futures = "0.3"
hex = "0.4"
sha1 = "0.10"
tempfile = "3"
tokio = { version = "1", features = ["fs", "macros", "rt-multi-thread", "io-util"] }
