[package]
name = "store"
version = "0.1.0"
edition = "2021"
publish = false

[dependencies]
crossbeam = "0.8"
env_logger = "0.11"
log = "0.4"
parking_lot = "0.12"
postcard = { version = "1", features = ["alloc"] }
serde = { version = "1", features = ["derive"] }
thiserror = "2"
