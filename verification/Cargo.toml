[package]
name = "ingester"
version = "0.1.0"
edition = "2021"
publish = false

[dependencies]
mrecordlog = "*"
tokio = { version = "*", features = ["full"] }
