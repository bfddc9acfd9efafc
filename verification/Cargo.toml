[package]
name = "formally"
version = "0.1.0"
edition = "2021"
publish = false

[dependencies]
dashmap = "6"
pretty = "0.12"
termsize = "0.1"
