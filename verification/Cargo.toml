[package]
name = "netbase"
version = "0.1.0"
edition = "2021"
publish = false

[dependencies]
trust-dns-client = "=0.23.2"
trust-dns-proto = "=0.23.2"
tokio = { version = "=1.53.2", features = ["rt-multi-thread", "time", "net"] }
futures = "=0.3.34"
futures-util = "=0.3.34"
chrono = "=0.4.45"
