[package]
name = "bonsaidb"
version = "0.1.0"
edition = "2021"
publish = false

[dependencies]
lz4_flex = "*"
rand = "0.8"
itertools = "*"
flume = "*"
url = "*"
nebari = "*"
serde = { version = "*", features = ["derive"] }
bincode = "1"
