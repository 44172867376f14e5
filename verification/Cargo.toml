[package]
name = "bonsai"
version = "0.1.0"
edition = "2021"
publish = false

[dependencies]
anyhow = "1"
byteorder = "1"
clap = { version = "4", features = ["derive"] }
polars = { version = "0.41", default-features = false, features = ["lazy", "csv", "parquet"] }
proc-macro2 = "1"
prost = "0.13"
rayon = "1"
serde_json = "1"
tempfile = "3"
zip = { version = "2", default-features = false, features = ["deflate"] }
