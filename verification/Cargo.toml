[package]
name = "ordered_pipeline"
version = "0.1.0"
edition = "2021"
publish = false

[dependencies]
bzip2-sys = "0.1"
crossbeam-channel = "0.5"
csv = "1"
env_logger = "*"
futures = "0.3"
heck = "*"
log = "0.4"
opencv = "*"
raster = "0.2"
regex = "1"
tokio = { version = "1", features = ["rt-multi-thread"] }
