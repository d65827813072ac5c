[package]
name = "actor-kit"
version = "0.2.2"
edition = "2021"
publish = false

[dependencies]
futures = "0.3"
loom = "0.7"
rand_xoshiro = "*"
serde = { version = "1", features = ["derive"] }
thiserror = "2"
tokio = { version = "1", features = ["rt", "time"] }
uuid = { version = "1", features = ["v4", "serde"] }
