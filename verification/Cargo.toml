[package]
name = "p2p_file_deployer"
version = "0.1.0"
edition = "2021"
publish = false

[dependencies]
bytes = "1"
sha1 = "0.10"
serde = { version = "1", features = ["derive"] }
serde_json = "1"
thiserror = "1"
tokio = { version = "1", features = ["net", "io-util", "rt", "rt-multi-thread", "macros", "sync", "time", "fs", "process"] }
uuid = { version = "1", features = ["v4"] }
dashmap = "*"
tracing = "0.1"
if-addrs = "*"
gethostname = "*"
