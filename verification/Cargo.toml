[package]
name = "datafusion-distributed"
version = "0.1.0"
edition = "2021"
publish = false

[dependencies]
arrow-flight = { version = "=59.3.2", default-features = false }
async-trait = "=0.1.92"
bincode = "=1.3.3"
bytes = "=1.12.1"
chrono = { version = "=0.4.45", default-features = false, features = ["std"] }
dashmap = "=6.2.1"
datafusion = { version = "=55.2.0", default-features = false, features = ["parquet"] }
datafusion-proto = { version = "=55.2.0", default-features = false }
delegate = "=0.13.5"
futures = "=0.3.34"
http = "=1.5.0"
itertools = "=0.15.0"
prost = "=0.14.4"
rand = "=0.10.3"
reqwest = { version = "=0.13.5", default-features = false }
sketches-ddsketch = { version = "=0.4.2", features = ["use_serde"] }
tokio = { version = "=1.54.1", features = ["sync", "rt", "time", "macros"] }
tonic = { version = "=0.14.9", default-features = false }
url = "=2.5.8"
uuid = { version = "=1.29.0", features = ["v4"] }
zip = { version = "=9.2.2", default-features = false, features = ["deflate"] }
