[package]
name = "screensplit"
version = "0.1.0"
edition = "2021"
publish = false

[dependencies]
clap = "4"
tokio = { version = "1", features = ["rt-multi-thread", "net", "io-util", "macros", "sync"] }
