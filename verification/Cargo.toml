[package]
name = "flight_rpc"
version = "0.1.0"
edition = "2021"
publish = false

[dependencies]
tokio = { version = "1", features = ["net", "rt-multi-thread", "sync", "time", "macros"] }
clap = { version = "4", features = ["derive"] }
rand = "0.8"
