[package]
name = "mdns_discovery"
version = "0.1.0"
edition = "2021"
publish = false

[dependencies]
log = "*"
tokio = { version = "*", features = ["rt-multi-thread", "macros", "sync", "time"] }
futures-util = "*"
zeroconf = "*"
