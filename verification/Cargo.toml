[package]
name = "satirlib"
version = "0.1.0"
edition = "2021"
publish = false

[dependencies]
priority-queue = "*"
slice-dst = "*"
anyhow = "1"
structopt = "0.3"
thiserror = "1"
