[package]
name = "pretty_dns"
version = "0.1.0"
edition = "2021"
publish = false

[dependencies]
chrono = "0.4"
tokio = { version = "1", features = ["rt-multi-thread", "net", "time", "sync", "macros"] }
structopt = "0.3"
tracing = "0.1"
tracing-subscriber = "0.3"
