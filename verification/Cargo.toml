[package]
name = "emptydir"
version = "0.1.0"
edition = "2021"
publish = false

[dependencies]
clap = { version = "4", features = ["derive"] }
colored = "2"
num-format = "0.4"
walkdir = "2"
