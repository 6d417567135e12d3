[package]
name = "extsort"
version = "0.1.0"
edition = "2021"
publish = false

[dependencies]
tokio = { version = "=1.53.2", features = ["rt-multi-thread", "macros", "fs", "io-util"] }
clap = { version = "=4.6.7", features = ["derive"] }
rand = { version = "=0.8.8", features = ["small_rng"] }
