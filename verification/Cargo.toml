[package]
name = "runner"
version = "0.1.0"
edition = "2021"
publish = false

[dependencies]
petgraph = "0.6"
threadpool = "1"
failure = { version = "0.1", default-features = false, features = ["std"] }
