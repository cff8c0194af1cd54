[package]
name = "roimcr"
version = "0.1.0"
edition = "2021"
publish = false

[dependencies]
base64 = "=0.23.1"
csv = "=1.4.0"
ndarray = "=0.17.2"
ndarray-csv = "=0.5.4"
netcdf = "=0.12.1"
quick-xml = { version = "=0.42.0", features = ["serialize"] }
rayon = "=1.12.0"
serde = { version = "=1.0.229", features = ["derive"] }
