[package]
name = "infino"
version = "0.1.0"
edition = "2021"
publish = false

[dependencies]
apache-avro = "=0.22.0"
arc-swap = "=1.9.3"
arrow = { version = "=59.3.2", default-features = false }
arrow-array = "=59.3.2"
arrow-schema = "=59.3.2"
async-trait = "=0.1.92"
blake3 = "=1.8.7"
bytemuck = "=1.25.2"
bytes = "=1.12.1"
chrono = "=0.4.45"
dashmap = "=6.2.1"
datafusion = { version = "=55.2.0", default-features = false }
ferroid = { version = "=2.0.0", features = ["basic", "snowflake", "std", "alloc"] }
futures = "=0.3.34"
memmap2 = "=0.9.12"
mimalloc = { version = "=0.1.52", default-features = false }
object_store = { version = "=0.14.2", features = ["aws", "azure"] }
rand = "=0.10.3"
roaring = "=0.12.0"
thiserror = "=2.0.21"
tokio = { version = "=1.54.1", features = ["rt-multi-thread", "fs", "io-util", "time"] }
uuid = { version = "=1.29.0", features = ["v4"] }
wide = "=1.7.1"
zstd = "=0.13.4"
