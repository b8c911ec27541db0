[package]
name = "nodeclean"
version = "0.1.0"
edition = "2021"
publish = false

[dependencies]
async-channel = "*"
clap = { version = "*", features = ["derive"] }
futures = "*"
indicatif = "*"
inquire = "*"
tokio = { version = "*", features = ["rt-multi-thread", "macros", "fs"] }
walkdir = "*"
