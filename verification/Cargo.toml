[package]
name = "txpool"
version = "0.1.0"
edition = "2021"
publish = false

[dependencies]
fallible-iterator = "=0.2.0"
log = "0.4"
parking_lot = "=0.12.5"
threadpool = "=1.8.1"
