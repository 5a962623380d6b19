[package]
name = "pe_sched"
version = "0.1.0"
edition = "2021"
publish = false

[dependencies]
crossbeam = "*"
lockfree = "*"
memmap = "*"
