[package]
name = "uuid32"
version = "0.1.0"
edition = "2021"
publish = false

[dependencies]
bytes = "1"
fast32 = { version = "*", features = ["uuid"] }
postgres-protocol = "0.6"
serde = "1"
tokio-postgres = "0.7"
uuid = "1"
