[package]
name = "converge"
version = "0.1.0"
edition = "2021"
publish = false

[dependencies]
indexmap = "2"
pollster = "0.4"
thiserror = "2"
