[package]
name = "dispatcher_system"
version = "0.1.0"
edition = "2021"
publish = false

[dependencies]
num_cpus = "*"
parking_lot = "*"
ascii_table = "*"
