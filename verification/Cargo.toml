[package]
name = "smol"
version = "0.1.0"
edition = "2021"
publish = false

[dependencies]
crossbeam = "=0.7.3"
futures = "=0.3.34"
nio = "=0.0.2"
once_cell = "=1.21.4"
piper = "=0.1.3"
