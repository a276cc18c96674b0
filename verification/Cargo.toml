[package]
name = "ivy_core"
version = "0.1.0"
edition = "2021"
publish = false

[dependencies]
anyhow = "=1.0.104"
crossbeam-channel = "=0.5.17"
flax = { version = "=0.7.1", default-features = false }
flume = "=0.11.1"
generational-arena = "=0.2.9"
glam = "=0.34.2"
log = { version = "=0.4.35", features = ["std"] }
parking_lot = "=0.12.5"
slab = "=0.4.12"
thiserror = "=2.0.21"
