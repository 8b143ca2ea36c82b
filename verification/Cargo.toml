[package]
name = "linreg"
version = "0.1.0"
edition = "2021"
publish = false

[dependencies]
csv = "=1.4.0"
ndarray = "=0.17.2"
ndarray-csv = "=0.5.4"
