[package]
name = "sql_splitter"
version = "0.1.0"
edition = "2021"
publish = false

[dependencies]
clap = { version = "*", features = ["derive"] }
futures = "*"
tokio = { version = "*", features = ["fs", "io-util", "macros", "rt-multi-thread"] }
