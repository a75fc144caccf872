[package]
name = "horde"
version = "0.2.0"
edition = "2021"
publish = false

[dependencies]
crossbeam-epoch = "0.9"
crossbeam-utils = "0.8"
parking_lot = "0.12"
