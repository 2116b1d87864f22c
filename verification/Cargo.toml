[package]
name = "shard_query_core"
version = "0.1.0"
edition = "2021"
publish = false

[dependencies]
tokio = { version = "*", features = ["rt-multi-thread", "sync", "time", "macros"] }
futures = "*"
