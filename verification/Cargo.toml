[package]
name = "kvs"
version = "0.1.0"
edition = "2021"
publish = false

[dependencies]
chrono = "*"
serde = { version = "*", features = ["derive"] }
serde_json = "*"
sled = "*"
structopt = "*"
thiserror = "*"
log = "*"
env_logger = "*"
crossbeam = "*"
