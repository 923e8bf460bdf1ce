[package]
name = "resp_replica"
version = "0.1.0"
edition = "2021"
publish = false

[dependencies]
anyhow = "1"
futures = "0.3"
hex = "0.4"
structopt = "0.3"
tokio = { version = "1", features = ["full"] }
