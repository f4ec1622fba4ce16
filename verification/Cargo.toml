[package]
name = "atc"
version = "0.1.0"
edition = "2021"
publish = false

[dependencies]
queues = "1"
regex = "1"
tokio = { version = "1", features = ["full"] }
log = "0.4"
log4rs = "1"
