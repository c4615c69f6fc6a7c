[package]
name = "etcd_p2c"
version = "0.1.0"
edition = "2021"
publish = false

[dependencies]
async-broadcast = "*"
chrono = "*"
dashmap = "*"
etcd-client = "*"
num-integer = "*"
tokio = { version = "*", features = ["full"] }
tracing = "*"
volo = "*"
