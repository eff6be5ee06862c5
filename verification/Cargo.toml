[package]
name = "lnconv-core"
version = "0.1.0"
edition = "2021"
publish = false

[dependencies]
anyhow = "1"
arrow-array = { version = "56", default-features = false }
arrow-schema = { version = "56", default-features = false }
chrono = { version = "0.4", default-features = false, features = ["clock"] }
clap = { version = "4", features = ["derive"] }
crossbeam-channel = "0.5"
csv = "1"
duckdb = { version = "1", default-features = false }
fixedbitset = "0.5"
nexosim = "1"
nohash-hasher = "0.2"
parking_lot = "0.12"
parquet = { version = "56", default-features = false, features = ["arrow", "zstd"] }
petgraph = "0.8"
rand = "0.9"
rand_chacha = "0.9"
rustworkx-core = "0.17"
serde = { version = "1", features = ["derive"] }
statrs = { version = "0.18", default-features = false }
thiserror = "2"
toml = "0.8"
twox-hash = { version = "2", default-features = false, features = ["std", "xxhash3_64"] }
