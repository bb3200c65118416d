[package]
name = "procstats"
version = "0.1.0"
edition = "2021"
publish = false

[dependencies]
procfs = { version = "0.15", default-features = false }
users = "0.11"
itertools = "0.10"
