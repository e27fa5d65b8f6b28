[package]
name = "clique"
version = "0.1.0"
edition = "2021"
publish = false

[dependencies]
twox-hash = "1.6"
uuid = { version = "0.8", features = ["v4", "serde"] }
cuckoofilter = "0.5"
bincode = "1.3"
serde = { version = "1", features = ["derive"] }
indexmap = "1.9"
rand = "0.8"
bytes = "1"
tokio = { version = "1", features = ["rt-multi-thread", "sync", "time", "macros"] }
futures = "0.3"
async-trait = "0.1"
structopt = "0.3"
