[package]
name = "bpx"
version = "0.1.0"
edition = "2021"
publish = false

[dependencies]
similar = "*"
hyper = "*"
http-body = "*"
tokio = { version = "*", features = ["rt", "sync", "time"] }
async-trait = "*"
bytes = "*"
dashmap = "*"
thiserror = "*"
