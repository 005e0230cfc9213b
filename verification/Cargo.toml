[package]
name = "event_globals"
version = "0.1.0"
edition = "2021"
publish = false

[dependencies]
any_key = "*"
atomic_refcell = "*"
dyn-clone = "*"
num_cpus = "*"
parking_lot = "*"
