[package]
name = "rsgc"
version = "0.1.0"
edition = "2021"
publish = false

[dependencies]
crossbeam-deque = "0.8"
crossbeam-queue = "0.3"
rand = "0.8"
libc = "0.2"
log = "0.4"
env_logger = "0.10"
parking_lot = "0.12"
