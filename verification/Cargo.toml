[package]
name = "dp_simplify"
version = "0.1.0"
edition = "2021"
publish = false

[dependencies]
anyhow = "1"
clap = { version = "4", features = ["derive"] }
gdal = "0.17"
geos = "10"
rstar = "0.12"
serde = { version = "1", features = ["derive"] }
serde_json = "1"
