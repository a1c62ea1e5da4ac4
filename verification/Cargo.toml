[package]
name = "dataflux_rust"
version = "0.1.0"
edition = "2021"
publish = false

[dependencies]
num-bigint = "0.4"
num-traits = "0.2"
anyhow = "1"
async-channel = "2"
futures = "0.3"
tokio = { version = "1", features = ["macros", "rt-multi-thread", "fs", "io-util", "sync"] }
google-cloud-storage = "1"
google-cloud-wkt = "1"
pyo3 = "0.22"
