[package]
name = "ips"
version = "0.1.0"
edition = "2021"
publish = false

[dependencies]
ipnet = "2"
