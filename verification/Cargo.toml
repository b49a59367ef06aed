[package]
name = "zettacache"
version = "0.1.0"
edition = "2021"
publish = false

[dependencies]
anyhow = "1"
bimap = "0.6"
bincode = "1.3"
bytes = "1"
bytesize = "1"
flume = "0.10"
futures = "0.3"
libc = "0.2"
log = "0.4"
lru = "0.7"
lz4 = "1.23"
nix = "0.24"
num-traits = "0.2"
rand = "0.8"
roaring = "0.9"
seahash = "4"
serde = { version = "1", features = ["derive"] }
serde_json = "1"
sysinfo = "0.26"
tokio = { version = "1", features = ["full"] }
tokio-stream = "0.1"
uuid = { version = "1", features = ["v4", "serde"] }
