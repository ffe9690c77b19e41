[package]
name = "emblem_swapper"
version = "0.1.0"
edition = "2021"
publish = false

[dependencies]
base64 = "*"
serde = { version = "*", features = ["derive"] }
serde_json = "*"
chrono = "*"
image = { version = "*", default-features = false, features = ["png"] }
zip = { version = "*", default-features = false, features = ["deflate"] }
tokio = { version = "*", features = ["net", "io-util", "time", "rt-multi-thread", "sync", "macros"] }
