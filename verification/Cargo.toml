[package]
name = "xdvdfs"
version = "0.1.0"
edition = "2021"
publish = false

[dependencies]
wax = "=0.6.0"

[dev-dependencies]
rand = "0.8"
