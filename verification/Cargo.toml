[package]
name = "discovery"
version = "0.1.0"
edition = "2021"
publish = false

[dependencies]
indexmap = "1"
futures = "0.1"
