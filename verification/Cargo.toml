[package]
name = "wpt_data"
version = "0.1.0"
edition = "2021"
publish = false

[dependencies]
accurate = "*"
clap = { version = "4", features = ["derive"] }
conv = "0.3"
csv = "1"
futures = "0.3"
peeking_take_while = "1"
rayon = "1"
reqwest = { version = "*", features = ["gzip", "json"] }
serde = { version = "1", features = ["derive"] }
serde_json = "1"
smallvec = "1"
tokio = { version = "1", features = ["rt", "net", "time"] }
url = "2"
