[package]
name = "rqs"
version = "0.1.0"
edition = "2021"
publish = false

[dependencies]
tonic = "0.12"
prost = "0.13"
tokio = { version = "1", features = ["sync", "time", "rt", "macros"] }
