[package]
name = "crossref-citation-extraction"
version = "0.1.0"
edition = "2021"
publish = false

[dependencies]
anyhow = "1"
clap = { version = "4", features = ["derive"] }
flate2 = "1"
fst = "0.4"
lazy_static = "1"
log = "0.4"
memmap2 = "0.9"
parquet = { version = "*", default-features = false }
polars = { version = "0.46", features = ["lazy", "parquet"] }
rayon = "1"
regex = "1"
serde = { version = "1", features = ["derive"] }
serde_json = "1"
tar = "0.4"
uuid = { version = "1", features = ["v4"] }
walkdir = "2"

[dev-dependencies]
tempfile = "3"
