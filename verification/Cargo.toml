[package]
name = "ipam"
version = "0.1.0"
edition = "2021"
publish = false

[dependencies]
ipnetwork = "*"
thiserror = "*"
walkdir = "*"
