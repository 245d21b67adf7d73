[package]
name = "qumulus"
version = "0.1.0"
edition = "2021"
publish = false

[dependencies]
bincode = "0.8"
env_logger = "0.4"
log = "0.3"
mioco = "0.8"
rand = "0.4"
serde = "1"
serde_derive = "1"
serde_json = "1"
threadpool = "1"
time = "0.1"
