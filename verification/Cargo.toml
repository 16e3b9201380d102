[package]
name = "async_xdp"
version = "0.1.0"
edition = "2021"
publish = false

[dependencies]
anyhow = "1"
core_affinity = "0.8"
itertools = "*"
log = "0.4"
smallvec = "1"
tokio = { version = "1", features = ["sync"] }
xsk-rs = "*"
